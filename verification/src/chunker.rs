//! Sentence splitting and the greedy packing of sentences into chunks of a
//! bounded number of words.

use crate::store::RagSystem;
use crate::text::{
    count_words, is_whitespace, lemma_split_words_concat, lemma_split_words_trim,
    lemma_trim_push_space, lemma_trimmed_text_holds_word, split_words, string_from_chars,
    string_views, to_chars, trim, trim_chars, word_count,
};
use vstd::prelude::*;

verus! {

/// Largest number of words that a chunk of several sentences may hold.
pub const MAX_CHUNK_WORDS: usize = 500;

/// The regular expression that marks the end of a sentence: a run of `.`,
/// `!` or `?` followed by a run of whitespace.
pub open spec fn sentence_boundary() -> Seq<char> {
    "[.!?]+\\s+"@
}

/// The pieces into which the regular expression `pattern` splits `text`, or
/// `None` where `pattern` is no regular expression.
pub uninterp spec fn regex_split(pattern: Seq<char>, text: Seq<char>) -> Option<Seq<Seq<char>>>;

/// The views of the pieces that a split handed back.
pub open spec fn piece_views(pieces: Option<Vec<String>>) -> Option<Seq<Seq<char>>> {
    match pieces {
        Some(v) => Some(string_views(v@)),
        None => None,
    }
}

/// Compiles `pattern` with `regex::Regex::new` and cuts `text` with
/// `Regex::split`: the substrings between successive non-overlapping matches,
/// in order. The pieces are named by `regex_split`, not described; `None`
/// stands for a pattern that the crate rejects.
#[verifier::external_body]
pub(crate) fn split_by_regex(pattern: &str, text: &str) -> (pieces: Option<Vec<String>>)
    ensures
        piece_views(pieces) == regex_split(pattern@, text@),
{
    match regex::Regex::new(pattern) {
        Ok(re) => Some(re.split(text).map(String::from).collect()),
        Err(_) => None,
    }
}

/// The trimmed pieces, without those that are empty after trimming.
pub open spec fn sentences_of(pieces: Seq<Seq<char>>) -> Seq<Seq<char>>
    decreases pieces.len(),
{
    if pieces.len() == 0 {
        Seq::empty()
    } else {
        let rest = sentences_of(pieces.drop_last());
        let sentence = trim(pieces.last());
        if sentence.len() > 0 {
            rest.push(sentence)
        } else {
            rest
        }
    }
}

/// The sentences of `text`. Where the boundary pattern is rejected, the text
/// is taken as a single piece.
pub open spec fn sentences_in(text: Seq<char>) -> Seq<Seq<char>> {
    match regex_split(sentence_boundary(), text) {
        Some(pieces) => sentences_of(pieces),
        None => sentences_of(seq![text]),
    }
}

/// The chunks that come of `sentences` when `current` holds the text gathered
/// so far. A sentence is appended with a space behind it; the gathered text is
/// closed, trimmed, before a sentence that would take it over the limit.
pub open spec fn pack(sentences: Seq<Seq<char>>, current: Seq<char>) -> Seq<Seq<char>>
    decreases sentences.len(),
{
    if sentences.len() == 0 {
        if trim(current).len() > 0 {
            seq![trim(current)]
        } else {
            Seq::empty()
        }
    } else {
        let sentence = sentences[0];
        if current.len() > 0 && word_count(current) + word_count(sentence) > MAX_CHUNK_WORDS {
            seq![trim(current)] + pack(sentences.drop_first(), sentence.push(' '))
        } else {
            pack(sentences.drop_first(), current + sentence.push(' '))
        }
    }
}

/// The chunks of a sequence of sentences.
pub open spec fn chunks_of(sentences: Seq<Seq<char>>) -> Seq<Seq<char>> {
    pack(sentences, Seq::empty())
}

/// Trims each piece and drops the pieces that hold nothing but whitespace.
pub fn sentences_from_pieces(pieces: &Vec<String>) -> (out: Vec<String>)
    ensures
        string_views(out@) == sentences_of(string_views(pieces@)),
{
    let ghost all = string_views(pieces@);
    let mut out: Vec<String> = Vec::new();
    let mut i: usize = 0;
    while i < pieces.len()
        invariant
            i <= pieces.len(),
            all == string_views(pieces@),
            string_views(out@) == sentences_of(all.take(i as int)),
        decreases pieces.len() - i,
    {
        let piece = to_chars(pieces[i].as_str());
        let sentence = trim_chars(&piece);
        proof {
            let upto = all.take(i as int + 1);
            assert(upto.drop_last() == all.take(i as int));
            assert(upto.last() == pieces@[i as int]@);
        }
        if sentence.len() > 0 {
            let s = string_from_chars(&sentence);
            proof {
                assert(string_views(out@.push(s)) == string_views(out@).push(s@));
            }
            out.push(s);
        }
        i = i + 1;
    }
    proof {
        assert(all.take(pieces.len() as int) == all);
    }
    out
}

/// A sentence followed by a space holds the words of the sentence; appended
/// to text that is empty or ends in whitespace, it adds them to that text's.
pub proof fn lemma_append_sentence(current: Seq<char>, sentence: Seq<char>)
    requires
        current.len() == 0 || is_whitespace(current.last()),
    ensures
        split_words(sentence.push(' ')) == split_words(sentence),
        split_words(current + sentence.push(' ')) == split_words(current) + split_words(sentence),
{
    let space = seq![' '];
    assert(is_whitespace(' '));
    assert(sentence.push(' ') == sentence + space);
    lemma_split_words_concat(sentence, space);
    assert(space.drop_first() == Seq::<char>::empty());
    assert(split_words(Seq::<char>::empty()) == Seq::<Seq<char>>::empty());
    assert(split_words(space) == Seq::<Seq<char>>::empty());
    assert(split_words(sentence) + split_words(space) == split_words(sentence));
    lemma_split_words_concat(current, sentence.push(' '));
}

/// The words of all of `texts`, in order.
pub open spec fn all_words(texts: Seq<Seq<char>>) -> Seq<Seq<char>>
    decreases texts.len(),
{
    if texts.len() == 0 {
        Seq::empty()
    } else {
        split_words(texts[0]) + all_words(texts.drop_first())
    }
}

/// The words of a sequence of texts begin with the words of the first.
proof fn lemma_all_words_cons(first: Seq<char>, rest: Seq<Seq<char>>)
    ensures
        all_words(seq![first] + rest) == split_words(first) + all_words(rest),
{
    let whole = seq![first] + rest;
    assert(whole[0] == first);
    assert(whole.drop_first() == rest);
}

/// Packing keeps the words of the gathered text and of the sentences.
proof fn lemma_pack_keeps_words(sentences: Seq<Seq<char>>, current: Seq<char>)
    requires
        current.len() == 0 || is_whitespace(current.last()),
    ensures
        all_words(pack(sentences, current)) == split_words(current) + all_words(sentences),
    decreases sentences.len(),
{
    let none = Seq::<Seq<char>>::empty();
    assert(all_words(none) == none);
    assert(split_words(Seq::<char>::empty()) == none);
    lemma_split_words_trim(current);
    if sentences.len() == 0 {
        if trim(current).len() > 0 {
            lemma_all_words_cons(trim(current), none);
            assert(seq![trim(current)] + none == seq![trim(current)]);
        } else {
            assert(trim(current) == Seq::<char>::empty());
        }
        assert(split_words(current) + none == split_words(current));
    } else {
        let sentence = sentences[0];
        let rest = sentences.drop_first();
        let next = sentence.push(' ');
        assert(is_whitespace(' '));
        assert(next.last() == ' ');
        lemma_append_sentence(current, sentence);
        if current.len() > 0 && word_count(current) + word_count(sentence) > MAX_CHUNK_WORDS {
            lemma_pack_keeps_words(rest, next);
            lemma_all_words_cons(trim(current), pack(rest, next));
            assert(split_words(current) + (split_words(sentence) + all_words(rest))
                == split_words(current) + all_words(sentences));
        } else {
            assert((current + next).last() == ' ');
            lemma_pack_keeps_words(rest, current + next);
            assert((split_words(current) + split_words(sentence)) + all_words(rest)
                == split_words(current) + (split_words(sentence) + all_words(rest)));
        }
    }
}

/// No word is lost, added or moved: the words of the chunks, read in order,
/// are the words of the sentences, read in order.
pub proof fn lemma_chunks_keep_words(sentences: Seq<Seq<char>>)
    ensures
        all_words(chunks_of(sentences)) == all_words(sentences),
{
    lemma_pack_keeps_words(sentences, Seq::empty());
    assert(split_words(Seq::<char>::empty()) == Seq::<Seq<char>>::empty());
    assert(Seq::<Seq<char>>::empty() + all_words(sentences) == all_words(sentences));
}

/// Packing from gathered text within the limit gives chunks within the limit.
proof fn lemma_pack_within_limit(sentences: Seq<Seq<char>>, current: Seq<char>)
    requires
        current.len() == 0 || is_whitespace(current.last()),
        word_count(current) <= MAX_CHUNK_WORDS,
        forall|i: int| 0 <= i < sentences.len() ==> word_count(#[trigger] sentences[i])
            <= MAX_CHUNK_WORDS,
    ensures
        forall|k: int|
            0 <= k < pack(sentences, current).len() ==> word_count(
                #[trigger] pack(sentences, current)[k],
            ) <= MAX_CHUNK_WORDS,
    decreases sentences.len(),
{
    lemma_split_words_trim(current);
    if sentences.len() > 0 {
        let sentence = sentences[0];
        let rest = sentences.drop_first();
        let next = sentence.push(' ');
        assert(is_whitespace(' '));
        assert(next.last() == ' ');
        assert(split_words(Seq::<char>::empty()) == Seq::<Seq<char>>::empty());
        lemma_append_sentence(current, sentence);
        assert forall|i: int| 0 <= i < rest.len() implies word_count(#[trigger] rest[i])
            <= MAX_CHUNK_WORDS by {
            assert(rest[i] == sentences[i + 1]);
        }
        if current.len() > 0 && word_count(current) + word_count(sentence) > MAX_CHUNK_WORDS {
            lemma_pack_within_limit(rest, next);
            let tail = pack(rest, next);
            assert forall|k: int| 0 <= k < pack(sentences, current).len() implies word_count(
                #[trigger] pack(sentences, current)[k],
            ) <= MAX_CHUNK_WORDS by {
                if k > 0 {
                    assert(pack(sentences, current)[k] == tail[k - 1]);
                }
            }
        } else {
            assert((current + next).last() == ' ');
            assert(word_count(current + next) == word_count(current) + word_count(sentence));
            lemma_pack_within_limit(rest, current + next);
            assert(pack(sentences, current) == pack(rest, current + next));
        }
    } else {
        assert forall|k: int| 0 <= k < pack(sentences, current).len() implies word_count(
            #[trigger] pack(sentences, current)[k],
        ) <= MAX_CHUNK_WORDS by {
            assert(pack(sentences, current)[k] == trim(current));
        }
    }
}

/// Where no sentence alone holds more than `MAX_CHUNK_WORDS` words, no chunk
/// does.
pub proof fn lemma_chunks_within_limit(sentences: Seq<Seq<char>>)
    requires
        forall|i: int| 0 <= i < sentences.len() ==> word_count(#[trigger] sentences[i])
            <= MAX_CHUNK_WORDS,
    ensures
        forall|k: int|
            0 <= k < chunks_of(sentences).len() ==> word_count(#[trigger] chunks_of(sentences)[k])
                <= MAX_CHUNK_WORDS,
{
    assert(split_words(Seq::<char>::empty()) == Seq::<Seq<char>>::empty());
    lemma_pack_within_limit(sentences, Seq::empty());
}

/// Every sentence holds a word.
pub proof fn lemma_sentences_hold_words(pieces: Seq<Seq<char>>)
    ensures
        forall|i: int|
            0 <= i < sentences_of(pieces).len() ==> word_count(#[trigger] sentences_of(pieces)[i])
                > 0,
    decreases pieces.len(),
{
    if pieces.len() > 0 {
        let rest = sentences_of(pieces.drop_last());
        lemma_sentences_hold_words(pieces.drop_last());
        if trim(pieces.last()).len() > 0 {
            lemma_trimmed_text_holds_word(pieces.last());
        }
        assert forall|i: int| 0 <= i < sentences_of(pieces).len() implies word_count(
            #[trigger] sentences_of(pieces)[i],
        ) > 0 by {
            if i < rest.len() {
                assert(sentences_of(pieces)[i] == rest[i]);
            } else {
                assert(sentences_of(pieces)[i] == trim(pieces.last()));
            }
        }
    }
}

/// Packing sentences that hold words gives chunks that hold words.
proof fn lemma_pack_holds_words(sentences: Seq<Seq<char>>, current: Seq<char>)
    requires
        current.len() == 0 || (is_whitespace(current.last()) && word_count(current) > 0),
        forall|i: int| 0 <= i < sentences.len() ==> word_count(#[trigger] sentences[i]) > 0,
    ensures
        forall|k: int|
            0 <= k < pack(sentences, current).len() ==> word_count(
                #[trigger] pack(sentences, current)[k],
            ) > 0,
    decreases sentences.len(),
{
    lemma_split_words_trim(current);
    if sentences.len() > 0 {
        let sentence = sentences[0];
        let rest = sentences.drop_first();
        let next = sentence.push(' ');
        assert(is_whitespace(' '));
        assert(next.last() == ' ');
        assert(split_words(Seq::<char>::empty()) == Seq::<Seq<char>>::empty());
        lemma_append_sentence(current, sentence);
        assert forall|i: int| 0 <= i < rest.len() implies word_count(#[trigger] rest[i]) > 0 by {
            assert(rest[i] == sentences[i + 1]);
        }
        if current.len() > 0 && word_count(current) + word_count(sentence) > MAX_CHUNK_WORDS {
            lemma_pack_holds_words(rest, next);
            let tail = pack(rest, next);
            assert forall|k: int| 0 <= k < pack(sentences, current).len() implies word_count(
                #[trigger] pack(sentences, current)[k],
            ) > 0 by {
                if k > 0 {
                    assert(pack(sentences, current)[k] == tail[k - 1]);
                }
            }
        } else {
            assert((current + next).last() == ' ');
            assert(word_count(current + next) == word_count(current) + word_count(sentence));
            lemma_pack_holds_words(rest, current + next);
            assert(pack(sentences, current) == pack(rest, current + next));
        }
    } else {
        assert forall|k: int| 0 <= k < pack(sentences, current).len() implies word_count(
            #[trigger] pack(sentences, current)[k],
        ) > 0 by {
            assert(pack(sentences, current)[k] == trim(current));
            lemma_trimmed_text_holds_word(current);
        }
    }
}

/// Every chunk of a text holds a word.
pub proof fn lemma_chunks_hold_words(text: Seq<char>)
    ensures
        forall|k: int|
            0 <= k < chunks_of(sentences_in(text)).len() ==> word_count(
                #[trigger] chunks_of(sentences_in(text))[k],
            ) > 0,
{
    match regex_split(sentence_boundary(), text) {
        Some(pieces) => lemma_sentences_hold_words(pieces),
        None => lemma_sentences_hold_words(seq![text]),
    }
    lemma_pack_holds_words(sentences_in(text), Seq::empty());
}

/// Gathered text that is one long sentence is closed as the next chunk.
proof fn lemma_pack_closes_long(sentences: Seq<Seq<char>>, long: Seq<char>)
    requires
        word_count(long) > MAX_CHUNK_WORDS,
    ensures
        pack(sentences, long.push(' ')).len() > 0,
        pack(sentences, long.push(' '))[0] == trim(long),
{
    lemma_append_sentence(Seq::empty(), long);
    lemma_trim_push_space(long);
}

/// Whatever was gathered before, a long sentence comes out as a chunk.
proof fn lemma_pack_keeps_long(sentences: Seq<Seq<char>>, current: Seq<char>, i: int)
    requires
        0 <= i < sentences.len(),
        word_count(sentences[i]) > MAX_CHUNK_WORDS,
    ensures
        pack(sentences, current).contains(trim(sentences[i])),
    decreases sentences.len(),
{
    let sentence = sentences[0];
    let rest = sentences.drop_first();
    let next = sentence.push(' ');
    let closing = current.len() > 0 && word_count(current) + word_count(sentence)
        > MAX_CHUNK_WORDS;
    let tail = if closing {
        pack(rest, next)
    } else {
        pack(rest, current + next)
    };
    let goal = trim(sentences[i]);
    if i == 0 {
        lemma_pack_closes_long(rest, sentence);
        if !closing {
            assert(current.len() == 0);
            assert(current + next == next);
        }
        assert(tail[0] == goal);
    } else {
        assert(rest[i - 1] == sentences[i]);
        if closing {
            lemma_pack_keeps_long(rest, next, i - 1);
        } else {
            lemma_pack_keeps_long(rest, current + next, i - 1);
        }
    }
    assert(tail.contains(goal));
    let k = choose|k: int| 0 <= k < tail.len() && tail[k] == goal;
    if closing {
        assert(pack(sentences, current)[k + 1] == goal);
    } else {
        assert(pack(sentences, current)[k] == goal);
    }
}

/// A sentence of more than `MAX_CHUNK_WORDS` words is not cut: it stands,
/// trimmed, as a chunk of its own.
pub proof fn lemma_long_sentence_kept_whole(sentences: Seq<Seq<char>>, i: int)
    requires
        0 <= i < sentences.len(),
        word_count(sentences[i]) > MAX_CHUNK_WORDS,
    ensures
        chunks_of(sentences).contains(trim(sentences[i])),
{
    lemma_pack_keeps_long(sentences, Seq::empty(), i);
}

/// Packs sentences into chunks, in order: a chunk is closed before the
/// sentence that would take it over `MAX_CHUNK_WORDS` words, and a sentence is
/// never cut.
pub fn chunk_sentences(sentences: &Vec<String>) -> (out: Vec<String>)
    ensures
        string_views(out@) == chunks_of(string_views(sentences@)),
{
    let ghost all = string_views(sentences@);
    let mut out: Vec<String> = Vec::new();
    let mut current: Vec<char> = Vec::new();
    let mut count: usize = 0;
    let mut i: usize = 0;
    proof {
        assert(all.skip(0) == all);
        assert(string_views(out@) + pack(all, current@) == pack(all, current@));
        assert(split_words(Seq::<char>::empty()) == Seq::<Seq<char>>::empty());
    }
    while i < sentences.len()
        invariant
            i <= sentences.len(),
            all == string_views(sentences@),
            string_views(out@) + pack(all.skip(i as int), current@) == chunks_of(all),
            count == word_count(current@),
            current@.len() == 0 || is_whitespace(current@.last()),
        decreases sentences.len() - i,
    {
        let sentence = to_chars(sentences[i].as_str());
        let words = count_words(&sentence);
        let ghost rest = all.skip(i as int);
        proof {
            assert(rest[0] == sentence@);
            assert(rest.drop_first() == all.skip(i as int + 1));
            assert(is_whitespace(' '));
        }
        if current.len() > 0 && (count > MAX_CHUNK_WORDS || words > MAX_CHUNK_WORDS - count) {
            let closed = string_from_chars(&trim_chars(&current));
            proof {
                assert(string_views(out@.push(closed)) == string_views(out@).push(closed@));
                assert(string_views(out@).push(closed@) + pack(rest.drop_first(), sentence@.push(' '))
                    == string_views(out@) + pack(rest, current@));
                lemma_append_sentence(Seq::<char>::empty(), sentence@);
                assert(Seq::<char>::empty() + sentence@.push(' ') == sentence@.push(' '));
            }
            out.push(closed);
            current = Vec::new();
            count = 0;
        } else {
            proof {
                lemma_append_sentence(current@, sentence@);
            }
        }
        let ghost before = current@;
        let mut j: usize = 0;
        while j < sentence.len()
            invariant
                j <= sentence.len(),
                current@ == before + sentence@.take(j as int),
            decreases sentence.len() - j,
        {
            current.push(sentence[j]);
            proof {
                assert(sentence@.take(j as int + 1) == sentence@.take(j as int).push(sentence@[j as int]));
            }
            j = j + 1;
        }
        current.push(' ');
        proof {
            assert(sentence@.take(sentence.len() as int) == sentence@);
            assert(current@ == before + sentence@.push(' '));
            assert(word_count(current@) == word_count(before) + words);
        }
        count = count + words;
        i = i + 1;
    }
    let last = trim_chars(&current);
    if last.len() > 0 {
        let closed = string_from_chars(&last);
        proof {
            assert(string_views(out@.push(closed)) == string_views(out@).push(closed@));
        }
        out.push(closed);
    }
    proof {
        assert(all.skip(sentences.len() as int).len() == 0);
    }
    out
}

impl RagSystem {
    /// Splits `text` into sentences: cuts at every sentence boundary, trims
    /// the pieces and drops the empty ones.
    pub fn split_into_sentences(&self, text: &str) -> (out: Vec<String>)
        ensures
            string_views(out@) == sentences_in(text@),
    {
        match split_by_regex("[.!?]+\\s+", text) {
            Some(pieces) => sentences_from_pieces(&pieces),
            None => {
                let mut whole: Vec<String> = Vec::new();
                whole.push(text.to_owned());
                proof {
                    assert(string_views(whole@) == seq![text@]);
                }
                sentences_from_pieces(&whole)
            },
        }
    }

    /// Splits `text` into chunks of whole sentences.
    pub fn chunk_text(&self, text: &str) -> (out: Vec<String>)
        ensures
            string_views(out@) == chunks_of(sentences_in(text@)),
    {
        let sentences = self.split_into_sentences(text);
        chunk_sentences(&sentences)
    }
}

} // verus!
