//! The integer side of relevance scoring: for a query, the terms whose
//! weighted sum is a chunk's score.

use crate::index::WordIndex;
use crate::model::{same_chunks, DocumentChunk};
use crate::text::{same_text, string_views, to_chars};
use crate::tokens::{lowercase, to_lowercase, tokenize, tokens};
use vstd::prelude::*;

verus! {

/// Number of times that `needle` stands in `hay`, counted from the left
/// without overlap. An empty needle stands nowhere.
pub open spec fn occurrences(hay: Seq<char>, needle: Seq<char>) -> nat
    decreases hay.len(),
{
    if needle.len() == 0 || hay.len() < needle.len() {
        0
    } else if hay.take(needle.len() as int) == needle {
        1 + occurrences(hay.skip(needle.len() as int), needle)
    } else {
        occurrences(hay.drop_first(), needle)
    }
}

/// Whether `needle` stands in `hay` at `at`.
fn stands_at(hay: &Vec<char>, needle: &Vec<char>, at: usize) -> (found: bool)
    requires
        at + needle.len() <= hay.len(),
    ensures
        found == (hay@.subrange(at as int, at + needle.len()) == needle@),
{
    let mut k: usize = 0;
    while k < needle.len()
        invariant
            k <= needle.len(),
            at + needle.len() <= hay.len(),
            hay@.subrange(at as int, at + k) == needle@.take(k as int),
        decreases needle.len() - k,
    {
        if hay[at + k] != needle[k] {
            proof {
                let window = hay@.subrange(at as int, at + needle.len());
                assert(window[k as int] != needle@[k as int]);
            }
            return false;
        }
        proof {
            assert(hay@.subrange(at as int, at + k + 1) == hay@.subrange(at as int, at + k).push(
                hay@[at + k],
            ));
            assert(needle@.take(k as int + 1) == needle@.take(k as int).push(needle@[k as int]));
        }
        k = k + 1;
    }
    proof {
        assert(needle@.take(needle.len() as int) == needle@);
    }
    true
}

/// Counts the places at which `needle` stands in `hay`, from the left and
/// without overlap.
pub fn count_occurrences(hay: &Vec<char>, needle: &Vec<char>) -> (count: usize)
    ensures
        count == occurrences(hay@, needle@),
{
    let n: usize = hay.len();
    let m: usize = needle.len();
    if m == 0 || n < m {
        return 0;
    }
    let mut count: usize = 0;
    let mut i: usize = 0;
    proof {
        assert(hay@.skip(0) == hay@);
    }
    while i <= n - m
        invariant
            0 < m == needle.len(),
            m <= n == hay.len(),
            i <= n,
            count <= i,
            count + occurrences(hay@.skip(i as int), needle@) == occurrences(hay@, needle@),
        decreases n - i,
    {
        let ghost rest = hay@.skip(i as int);
        proof {
            assert(rest.take(m as int) == hay@.subrange(i as int, i + m));
        }
        if stands_at(hay, needle, i) {
            proof {
                assert(rest.skip(m as int) == hay@.skip(i + m));
            }
            count = count + 1;
            i = i + m;
        } else {
            proof {
                assert(rest.drop_first() == hay@.skip(i + 1));
            }
            i = i + 1;
        }
    }
    count
}

/// Whether `word` is one of the terms whose weight is doubled.
pub open spec fn is_priority_term(word: Seq<char>) -> bool {
    word == "toro"@ || word == "recycler"@ || word == "22"@ || word == "manual"@
}

/// The factor by which the weight of `word` is multiplied.
pub open spec fn bonus_of(word: Seq<char>) -> usize {
    if is_priority_term(word) {
        2
    } else {
        1
    }
}

/// The factor for `word`: 2 for a priority term, 1 for any other.
pub fn word_bonus(word: &str) -> (bonus: usize)
    ensures
        bonus == bonus_of(word@),
{
    if same_text(word, "toro") || same_text(word, "recycler") || same_text(word, "22")
        || same_text(word, "manual") {
        2
    } else {
        1
    }
}

/// One term of a chunk's score. The score of a chunk is the sum, over its
/// terms, of `term_frequency / word_count`, times the absolute value of the
/// natural logarithm of `total_chunks / document_frequency`, times `bonus`.
#[derive(Debug, Clone, Copy, PartialEq, Eq)]
pub struct ScoreTerm {
    /// Position of the chunk that the term belongs to.
    pub chunk: usize,
    /// Occurrences of the query word in the chunk's lower-case text.
    pub term_frequency: usize,
    /// The chunk's recorded number of words.
    pub word_count: usize,
    /// Length of the query word's posting list.
    pub document_frequency: usize,
    /// Number of chunks in the collection.
    pub total_chunks: usize,
    /// 2 for a priority term, 1 for any other.
    pub bonus: usize,
}

/// The term that `word`, with a posting list of `frequency` entries, gives
/// the chunk at `position`.
pub open spec fn term_for(
    chunks: Seq<DocumentChunk>,
    word: Seq<char>,
    frequency: usize,
    position: usize,
) -> ScoreTerm {
    ScoreTerm {
        chunk: position,
        term_frequency: occurrences(lowercase(chunks[position as int].content@), word) as usize,
        word_count: chunks[position as int].word_count,
        document_frequency: frequency,
        total_chunks: chunks.len() as usize,
        bonus: bonus_of(word),
    }
}

/// One term for each entry of `list`, in order; an entry that is no position
/// in `chunks` gives none.
pub open spec fn terms_for_postings(
    chunks: Seq<DocumentChunk>,
    word: Seq<char>,
    frequency: usize,
    list: Seq<usize>,
) -> Seq<ScoreTerm>
    decreases list.len(),
{
    if list.len() == 0 {
        Seq::empty()
    } else {
        let rest = terms_for_postings(chunks, word, frequency, list.drop_last());
        if list.last() < chunks.len() {
            rest.push(term_for(chunks, word, frequency, list.last()))
        } else {
            rest
        }
    }
}

/// The terms of `word`: those of its posting list, or none where the index
/// does not hold the word.
pub open spec fn terms_for_word(
    chunks: Seq<DocumentChunk>,
    index: Map<Seq<char>, Seq<usize>>,
    word: Seq<char>,
) -> Seq<ScoreTerm> {
    if index.contains_key(word) {
        terms_for_postings(chunks, word, index[word].len() as usize, index[word])
    } else {
        Seq::empty()
    }
}

/// The terms of each of `words`, in order; a word that stands in `words` more
/// than once counts where it stands first.
pub open spec fn terms_for_words(
    chunks: Seq<DocumentChunk>,
    index: Map<Seq<char>, Seq<usize>>,
    words: Seq<Seq<char>>,
) -> Seq<ScoreTerm>
    decreases words.len(),
{
    if words.len() == 0 {
        Seq::empty()
    } else {
        let rest = terms_for_words(chunks, index, words.drop_last());
        if words.drop_last().contains(words.last()) {
            rest
        } else {
            rest + terms_for_word(chunks, index, words.last())
        }
    }
}

/// The terms of a query: none over an empty collection, else those of the
/// query's tokens.
pub open spec fn score_terms_of(
    chunks: Seq<DocumentChunk>,
    index: Map<Seq<char>, Seq<usize>>,
    query: Seq<char>,
) -> Seq<ScoreTerm> {
    if chunks.len() == 0 {
        Seq::empty()
    } else {
        terms_for_words(chunks, index, tokens(query))
    }
}

/// A posting list gives the same terms over collections that agree.
proof fn lemma_postings_terms_of_same_chunks(
    a: Seq<DocumentChunk>,
    b: Seq<DocumentChunk>,
    word: Seq<char>,
    frequency: usize,
    list: Seq<usize>,
)
    requires
        same_chunks(a, b),
    ensures
        terms_for_postings(a, word, frequency, list) == terms_for_postings(b, word, frequency, list),
    decreases list.len(),
{
    if list.len() > 0 {
        lemma_postings_terms_of_same_chunks(a, b, word, frequency, list.drop_last());
        if list.last() < a.len() {
            assert(a[list.last() as int].content@ == b[list.last() as int].content@);
        }
    }
}

/// Words give the same terms over collections that agree.
proof fn lemma_word_terms_of_same_chunks(
    a: Seq<DocumentChunk>,
    b: Seq<DocumentChunk>,
    index: Map<Seq<char>, Seq<usize>>,
    words: Seq<Seq<char>>,
)
    requires
        same_chunks(a, b),
    ensures
        terms_for_words(a, index, words) == terms_for_words(b, index, words),
    decreases words.len(),
{
    if words.len() > 0 {
        lemma_word_terms_of_same_chunks(a, b, index, words.drop_last());
        let word = words.last();
        if index.contains_key(word) {
            lemma_postings_terms_of_same_chunks(a, b, word, index[word].len() as usize, index[word]);
        }
    }
}

/// The terms of a query are the same over two chunk collections that agree
/// field by field, under the same index.
pub proof fn lemma_terms_of_same_chunks(
    a: Seq<DocumentChunk>,
    b: Seq<DocumentChunk>,
    index: Map<Seq<char>, Seq<usize>>,
    query: Seq<char>,
)
    requires
        same_chunks(a, b),
    ensures
        score_terms_of(a, index, query) == score_terms_of(b, index, query),
{
    lemma_word_terms_of_same_chunks(a, b, index, tokens(query));
}

/// Whether the word at `at` stands in `words` before `at` too.
fn seen_before(words: &Vec<String>, at: usize) -> (seen: bool)
    requires
        at < words.len(),
    ensures
        seen == string_views(words@).take(at as int).contains(words@[at as int]@),
{
    let ghost earlier = string_views(words@).take(at as int);
    let mut k: usize = 0;
    while k < at
        invariant
            k <= at < words.len(),
            earlier == string_views(words@).take(at as int),
            forall|i: int| 0 <= i < k ==> earlier[i] != words@[at as int]@,
        decreases at - k,
    {
        if same_text(words[k].as_str(), words[at].as_str()) {
            proof {
                assert(earlier[k as int] == words@[at as int]@);
            }
            return true;
        }
        k = k + 1;
    }
    false
}

/// Appends to `out` the terms of `word`.
fn push_terms_of_word(
    chunks: &Vec<DocumentChunk>,
    index: &WordIndex,
    word: &str,
    out: &mut Vec<ScoreTerm>,
)
    requires
        index.well_formed(),
    ensures
        final(out)@ == old(out)@ + terms_for_word(chunks@, index@, word@),
{
    let ghost start = out@;
    match index.get(word) {
        Some(list) => {
            let frequency: usize = list.len();
            let needle = to_chars(word);
            let bonus = word_bonus(word);
            let mut k: usize = 0;
            proof {
                assert(start + terms_for_postings(chunks@, word@, frequency, list@.take(0))
                    == start);
            }
            while k < list.len()
                invariant
                    k <= list.len(),
                    needle@ == word@,
                    bonus == bonus_of(word@),
                    out@ == start + terms_for_postings(
                        chunks@,
                        word@,
                        frequency,
                        list@.take(k as int),
                    ),
                decreases list.len() - k,
            {
                let position: usize = list[k];
                proof {
                    let upto = list@.take(k as int + 1);
                    assert(upto.drop_last() == list@.take(k as int));
                    assert(upto.last() == position);
                }
                if position < chunks.len() {
                    let chunk = &chunks[position];
                    let lower = to_lowercase(chunk.content.as_str());
                    let hay = to_chars(lower.as_str());
                    let term = ScoreTerm {
                        chunk: position,
                        term_frequency: count_occurrences(&hay, &needle),
                        word_count: chunk.word_count,
                        document_frequency: frequency,
                        total_chunks: chunks.len(),
                        bonus,
                    };
                    proof {
                        assert(term == term_for(chunks@, word@, frequency, position));
                        let had = terms_for_postings(
                            chunks@,
                            word@,
                            frequency,
                            list@.take(k as int),
                        );
                        assert((start + had).push(term) == start + had.push(term));
                    }
                    out.push(term);
                }
                k = k + 1;
            }
            proof {
                assert(list@.take(list.len() as int) == list@);
            }
        },
        None => {
            proof {
                assert(start + Seq::<ScoreTerm>::empty() == start);
            }
        },
    }
}

/// The terms of the scores that `query` gives the chunks: for each token of
/// the query that the index holds, in order and each once, one term for every
/// entry of its posting list.
pub fn score_terms(chunks: &Vec<DocumentChunk>, index: &WordIndex, query: &str) -> (out: Vec<
    ScoreTerm,
>)
    requires
        index.well_formed(),
    ensures
        out@ == score_terms_of(chunks@, index@, query@),
        chunks.len() == 0 ==> out.len() == 0,
{
    let mut out: Vec<ScoreTerm> = Vec::new();
    if chunks.len() == 0 {
        return out;
    }
    let words = tokenize(query);
    let ghost all = string_views(words@);
    let mut j: usize = 0;
    while j < words.len()
        invariant
            j <= words.len(),
            index.well_formed(),
            all == string_views(words@),
            out@ == terms_for_words(chunks@, index@, all.take(j as int)),
        decreases words.len() - j,
    {
        proof {
            let upto = all.take(j as int + 1);
            assert(upto.drop_last() == all.take(j as int));
            assert(upto.last() == words@[j as int]@);
        }
        if !seen_before(&words, j) {
            push_terms_of_word(chunks, index, words[j].as_str(), &mut out);
        }
        j = j + 1;
    }
    proof {
        assert(all.take(words.len() as int) == all);
    }
    out
}

} // verus!
