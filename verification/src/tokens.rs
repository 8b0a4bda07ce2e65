//! Normalisation of text into index tokens: lower case, split on
//! whitespace, letters and digits only, nothing empty.

use crate::text::{
    split_into_words, split_words, string_from_chars, string_views, to_chars, word_views,
};
use vstd::prelude::*;

verus! {

/// Whether `c` is a letter or a digit in Unicode's sense.
pub uninterp spec fn is_alphanumeric(c: char) -> bool;

/// The lower-case form of `s`.
pub uninterp spec fn lowercase(s: Seq<char>) -> Seq<char>;

/// Calls `char::is_alphanumeric`, which tests the Unicode properties
/// `Alphabetic` and the number categories. The result is named by
/// `is_alphanumeric`, not described.
#[verifier::external_body]
pub(crate) fn char_is_alphanumeric(c: char) -> (b: bool)
    ensures
        b == is_alphanumeric(c),
{
    c.is_alphanumeric()
}

/// Calls `str::to_lowercase`, which gives the lower-case equivalent of the
/// text in the sense of Unicode's `Lowercase` property. The result is named by
/// `lowercase`, not described.
#[verifier::external_body]
pub(crate) fn to_lowercase(s: &str) -> (lower: String)
    ensures
        lower@ == lowercase(s@),
{
    s.to_lowercase()
}

/// The letters and digits of `word`, in order.
pub open spec fn letters_and_digits(word: Seq<char>) -> Seq<char>
    decreases word.len(),
{
    if word.len() == 0 {
        Seq::empty()
    } else {
        let rest = letters_and_digits(word.drop_last());
        if is_alphanumeric(word.last()) {
            rest.push(word.last())
        } else {
            rest
        }
    }
}

/// Each word reduced to its letters and digits, without the words that have
/// none.
pub open spec fn normalized(words: Seq<Seq<char>>) -> Seq<Seq<char>>
    decreases words.len(),
{
    if words.len() == 0 {
        Seq::empty()
    } else {
        let rest = normalized(words.drop_last());
        let token = letters_and_digits(words.last());
        if token.len() > 0 {
            rest.push(token)
        } else {
            rest
        }
    }
}

/// The tokens of `text`: its lower-case form, split on whitespace, each word
/// reduced to its letters and digits, the empty ones left out.
pub open spec fn tokens(text: Seq<char>) -> Seq<Seq<char>> {
    normalized(split_words(lowercase(text)))
}

/// Keeps the letters and digits of `word`.
pub fn strip_word(word: &Vec<char>) -> (out: Vec<char>)
    ensures
        out@ == letters_and_digits(word@),
{
    let mut out: Vec<char> = Vec::new();
    let mut i: usize = 0;
    while i < word.len()
        invariant
            i <= word.len(),
            out@ == letters_and_digits(word@.take(i as int)),
        decreases word.len() - i,
    {
        proof {
            let upto = word@.take(i as int + 1);
            assert(upto.drop_last() == word@.take(i as int));
            assert(upto.last() == word@[i as int]);
        }
        if char_is_alphanumeric(word[i]) {
            out.push(word[i]);
        }
        i = i + 1;
    }
    proof {
        assert(word@.take(word.len() as int) == word@);
    }
    out
}

/// Reduces text to its tokens.
pub fn tokenize(text: &str) -> (out: Vec<String>)
    ensures
        string_views(out@) == tokens(text@),
        forall|i: int| 0 <= i < out.len() ==> (#[trigger] out[i])@.len() > 0,
{
    let lower = to_lowercase(text);
    let words = split_into_words(&to_chars(lower.as_str()));
    let ghost all = word_views(words@);
    let mut out: Vec<String> = Vec::new();
    let mut i: usize = 0;
    while i < words.len()
        invariant
            i <= words.len(),
            all == word_views(words@),
            string_views(out@) == normalized(all.take(i as int)),
            forall|k: int| 0 <= k < out.len() ==> (#[trigger] out[k])@.len() > 0,
        decreases words.len() - i,
    {
        let token = strip_word(&words[i]);
        proof {
            let upto = all.take(i as int + 1);
            assert(upto.drop_last() == all.take(i as int));
            assert(upto.last() == words@[i as int]@);
        }
        if token.len() > 0 {
            let t = string_from_chars(&token);
            proof {
                assert(string_views(out@.push(t)) == string_views(out@).push(t@));
            }
            out.push(t);
        }
        i = i + 1;
    }
    proof {
        assert(all.take(words.len() as int) == all);
    }
    out
}

} // verus!
