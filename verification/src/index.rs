//! The inverted index: for each token, the positions of the chunks that hold
//! it, one entry for each occurrence.

use crate::model::{chunk_contents, DocumentChunk};
use crate::text::string_views;
use crate::tokens::{tokenize, tokens};
use vstd::hash_map::StringHashMap;
use vstd::prelude::*;

verus! {

/// An inverted index. Its view maps each word to its posting list.
pub struct WordIndex {
    slots: StringHashMap<usize>,
    words: Vec<String>,
    postings: Vec<Vec<usize>>,
}

impl View for WordIndex {
    type V = Map<Seq<char>, Seq<usize>>;

    closed spec fn view(&self) -> Map<Seq<char>, Seq<usize>> {
        Map::new(
            |w: Seq<char>| self.slots@.contains_key(w),
            |w: Seq<char>| self.postings@[self.slots@[w] as int]@,
        )
    }
}

/// One `position` for each place at which `word` stands in `toks`.
pub open spec fn postings_in(toks: Seq<Seq<char>>, word: Seq<char>, position: usize) -> Seq<usize>
    decreases toks.len(),
{
    if toks.len() == 0 {
        Seq::empty()
    } else {
        let rest = postings_in(toks.drop_last(), word, position);
        if toks.last() == word {
            rest.push(position)
        } else {
            rest
        }
    }
}

/// The posting list of `word` over the texts `contents`: the position of each
/// text, in order, once for each time that `word` is among the text's tokens.
pub open spec fn postings_of(contents: Seq<Seq<char>>, word: Seq<char>) -> Seq<usize>
    decreases contents.len(),
{
    if contents.len() == 0 {
        Seq::empty()
    } else {
        postings_of(contents.drop_last(), word) + postings_in(
            tokens(contents.last()),
            word,
            (contents.len() - 1) as usize,
        )
    }
}

/// The posting lists of the texts `done`, each list followed by the postings
/// of `toks` at `position`.
pub open spec fn index_with(
    done: Seq<Seq<char>>,
    toks: Seq<Seq<char>>,
    position: usize,
) -> Map<Seq<char>, Seq<usize>> {
    Map::new(
        |w: Seq<char>| (postings_of(done, w) + postings_in(toks, w, position)).len() > 0,
        |w: Seq<char>| postings_of(done, w) + postings_in(toks, w, position),
    )
}

/// The inverted index of the texts `contents`: every token that occurs, with
/// its posting list.
pub open spec fn index_of(contents: Seq<Seq<char>>) -> Map<Seq<char>, Seq<usize>> {
    Map::new(
        |w: Seq<char>| postings_of(contents, w).len() > 0,
        |w: Seq<char>| postings_of(contents, w),
    )
}

/// The postings of one text hold that text's position and no other.
proof fn lemma_postings_in_hold_position(toks: Seq<Seq<char>>, word: Seq<char>, position: usize)
    ensures
        forall|k: int|
            0 <= k < postings_in(toks, word, position).len() ==> #[trigger] postings_in(
                toks,
                word,
                position,
            )[k] == position,
    decreases toks.len(),
{
    if toks.len() > 0 {
        let rest = postings_in(toks.drop_last(), word, position);
        lemma_postings_in_hold_position(toks.drop_last(), word, position);
        assert forall|k: int| 0 <= k < postings_in(toks, word, position).len() implies #[trigger]
        postings_in(toks, word, position)[k] == position by {
            if k < rest.len() {
                assert(postings_in(toks, word, position)[k] == rest[k]);
            }
        }
    }
}

/// A posting list holds positions of texts only, and holds them in rising
/// order.
pub proof fn lemma_postings_are_positions(contents: Seq<Seq<char>>, word: Seq<char>)
    requires
        contents.len() <= usize::MAX,
    ensures
        forall|k: int|
            0 <= k < postings_of(contents, word).len() ==> #[trigger] postings_of(contents, word)[k]
                < contents.len(),
        forall|j: int, k: int|
            0 <= j <= k < postings_of(contents, word).len() ==> postings_of(contents, word)[j]
                <= postings_of(contents, word)[k],
    decreases contents.len(),
{
    if contents.len() > 0 {
        let before = postings_of(contents.drop_last(), word);
        let position = (contents.len() - 1) as usize;
        let added = postings_in(tokens(contents.last()), word, position);
        lemma_postings_are_positions(contents.drop_last(), word);
        lemma_postings_in_hold_position(tokens(contents.last()), word, position);
        assert forall|k: int| 0 <= k < (before + added).len() implies #[trigger] (before + added)[k]
            < contents.len() && (k < before.len() ==> (before + added)[k] < position) && (k
            >= before.len() ==> (before + added)[k] == position) by {
            if k < before.len() {
                assert((before + added)[k] == before[k]);
            } else {
                assert((before + added)[k] == added[k - before.len()]);
            }
        }
    }
}

/// Number of places at which `word` stands in `toks`.
pub open spec fn count_in(toks: Seq<Seq<char>>, word: Seq<char>) -> nat
    decreases toks.len(),
{
    if toks.len() == 0 {
        0
    } else {
        count_in(toks.drop_last(), word) + if toks.last() == word {
            1nat
        } else {
            0nat
        }
    }
}

/// Number of entries of `list` that are `position`.
pub open spec fn entries_of(list: Seq<usize>, position: usize) -> nat
    decreases list.len(),
{
    if list.len() == 0 {
        0
    } else {
        entries_of(list.drop_last(), position) + if list.last() == position {
            1nat
        } else {
            0nat
        }
    }
}

/// The entries of two lists joined are those of each, added up.
proof fn lemma_entries_of_concat(a: Seq<usize>, b: Seq<usize>, position: usize)
    ensures
        entries_of(a + b, position) == entries_of(a, position) + entries_of(b, position),
    decreases b.len(),
{
    if b.len() == 0 {
        assert(a + b == a);
    } else {
        assert((a + b).drop_last() == a + b.drop_last());
        assert((a + b).last() == b.last());
        lemma_entries_of_concat(a, b.drop_last(), position);
    }
}

/// The postings of one text hold its position once for each occurrence.
proof fn lemma_entries_of_postings_in(
    toks: Seq<Seq<char>>,
    word: Seq<char>,
    position: usize,
    other: usize,
)
    ensures
        entries_of(postings_in(toks, word, position), other) == if other == position {
            count_in(toks, word)
        } else {
            0
        },
    decreases toks.len(),
{
    if toks.len() > 0 {
        let rest = postings_in(toks.drop_last(), word, position);
        lemma_entries_of_postings_in(toks.drop_last(), word, position, other);
        if toks.last() == word {
            assert(rest.push(position).drop_last() == rest);
        }
    }
}

/// A posting list holds a text's position once for each time that the word
/// is among the text's tokens.
pub proof fn lemma_postings_count_occurrences(
    contents: Seq<Seq<char>>,
    word: Seq<char>,
    position: usize,
)
    requires
        contents.len() <= usize::MAX,
    ensures
        entries_of(postings_of(contents, word), position) == if position < contents.len() {
            count_in(tokens(contents[position as int]), word)
        } else {
            0
        },
    decreases contents.len(),
{
    if contents.len() > 0 {
        let before = contents.drop_last();
        let at = (contents.len() - 1) as usize;
        lemma_postings_count_occurrences(before, word, position);
        lemma_entries_of_postings_in(tokens(contents.last()), word, at, position);
        lemma_entries_of_concat(
            postings_of(before, word),
            postings_in(tokens(contents.last()), word, at),
            position,
        );
        if position < before.len() {
            assert(before[position as int] == contents[position as int]);
        }
    }
}

impl WordIndex {
    /// The words stand in `words` in the order in which they came, each with
    /// its posting list at the same place, and `slots` finds that place.
    pub closed spec fn well_formed(&self) -> bool {
        &&& self.words.len() == self.postings.len()
        &&& forall|w: Seq<char>| #[trigger]
            self.slots@.contains_key(w) ==> self.slots@[w] < self.words.len()
                && self.words@[self.slots@[w] as int]@ == w
        &&& forall|i: int|
            0 <= i < self.words.len() ==> self.slots@.contains_key((#[trigger] self.words@[i])@)
                && self.slots@[self.words@[i]@] == i
    }

    /// The words of the index, in the order in which they first came.
    pub closed spec fn word_seq(&self) -> Seq<Seq<char>> {
        string_views(self.words@)
    }

    /// An index that holds no word.
    pub fn new() -> (index: WordIndex)
        ensures
            index.well_formed(),
            index@ == Map::<Seq<char>, Seq<usize>>::empty(),
            index.word_seq().len() == 0,
    {
        let index = WordIndex { slots: StringHashMap::new(), words: Vec::new(), postings: Vec::new() };
        proof {
            assert(index@ =~= Map::<Seq<char>, Seq<usize>>::empty());
        }
        index
    }

    /// Appends `position` to the posting list of `word`, which begins empty.
    pub fn add(&mut self, word: String, position: usize)
        requires
            old(self).well_formed(),
        ensures
            final(self).well_formed(),
            final(self)@ == old(self)@.insert(
                word@,
                if old(self)@.contains_key(word@) {
                    old(self)@[word@].push(position)
                } else {
                    seq![position]
                },
            ),
    {
        match self.slots.get(word.as_str()) {
            Some(slot) => {
                let at: usize = *slot;
                self.postings[at].push(position);
            },
            None => {
                let at: usize = self.words.len();
                let mut list: Vec<usize> = Vec::new();
                list.push(position);
                self.slots.insert(word.clone(), at);
                self.words.push(word);
                self.postings.push(list);
            },
        }
        proof {
            assert(final(self)@ =~= old(self)@.insert(
                word@,
                if old(self)@.contains_key(word@) {
                    old(self)@[word@].push(position)
                } else {
                    seq![position]
                },
            ));
        }
    }
}

impl WordIndex {
    /// The posting list of `word`, if the index holds the word.
    pub fn get(&self, word: &str) -> (list: Option<&Vec<usize>>)
        requires
            self.well_formed(),
        ensures
            match list {
                Some(l) => self@.contains_key(word@) && l@ == self@[word@],
                None => !self@.contains_key(word@),
            },
    {
        match self.slots.get(word) {
            Some(slot) => Some(&self.postings[*slot]),
            None => None,
        }
    }

    /// Gives `word` the posting list `list`, in place of the one it had.
    pub fn put(&mut self, word: String, list: Vec<usize>)
        requires
            old(self).well_formed(),
        ensures
            final(self).well_formed(),
            final(self)@ == old(self)@.insert(word@, list@),
    {
        match self.slots.get(word.as_str()) {
            Some(slot) => {
                let at: usize = *slot;
                self.postings.set(at, list);
            },
            None => {
                let at: usize = self.words.len();
                self.slots.insert(word.clone(), at);
                self.words.push(word);
                self.postings.push(list);
            },
        }
        proof {
            assert(final(self)@ =~= old(self)@.insert(word@, list@));
        }
    }

    /// Number of words in the index.
    pub fn len(&self) -> (n: usize)
        requires
            self.well_formed(),
        ensures
            n == self.word_seq().len(),
    {
        self.words.len()
    }

    /// The word at place `i` in the order in which the words came.
    pub fn word_at(&self, i: usize) -> (word: &String)
        requires
            self.well_formed(),
            i < self.word_seq().len(),
        ensures
            word@ == self.word_seq()[i as int],
            self@.contains_key(word@),
    {
        &self.words[i]
    }

    /// The posting list of the word at place `i`.
    pub fn postings_at(&self, i: usize) -> (list: &Vec<usize>)
        requires
            self.well_formed(),
            i < self.word_seq().len(),
        ensures
            self@.contains_key(self.word_seq()[i as int]),
            list@ == self@[self.word_seq()[i as int]],
    {
        &self.postings[i]
    }

    /// The places of `word_seq` hold the words of the index, each once.
    pub proof fn lemma_words_are_keys(&self)
        requires
            self.well_formed(),
        ensures
            forall|w: Seq<char>| self@.contains_key(w) <==> self.word_seq().contains(w),
            forall|i: int, j: int|
                0 <= i < j < self.word_seq().len() ==> self.word_seq()[i] != self.word_seq()[j],
    {
        assert forall|w: Seq<char>| self@.contains_key(w) implies self.word_seq().contains(w) by {
            assert(self.slots@.contains_key(w));
            assert(self.word_seq()[self.slots@[w] as int] == w);
        }
        assert forall|w: Seq<char>| self.word_seq().contains(w) implies self@.contains_key(w) by {
            let i = choose|i: int| 0 <= i < self.word_seq().len() && self.word_seq()[i] == w;
            assert(self.words@[i]@ == w);
        }
        assert forall|i: int, j: int| 0 <= i < j < self.word_seq().len() implies self.word_seq()[i]
            != self.word_seq()[j] by {
            assert(self.slots@[self.words@[i]@] == i);
            assert(self.slots@[self.words@[j]@] == j);
        }
    }
}

/// Builds the inverted index of `chunks`: for every chunk, in order, and every
/// token of its text, in order, the chunk's position is appended to the
/// token's posting list.
pub fn build_index(chunks: &Vec<DocumentChunk>) -> (index: WordIndex)
    ensures
        index.well_formed(),
        index@ == index_of(chunk_contents(chunks@)),
{
    let ghost contents = chunk_contents(chunks@);
    let mut index = WordIndex::new();
    let mut i: usize = 0;
    proof {
        assert(index@ =~= index_of(contents.take(0)));
    }
    while i < chunks.len()
        invariant
            i <= chunks.len(),
            contents == chunk_contents(chunks@),
            index.well_formed(),
            index@ == index_of(contents.take(i as int)),
        decreases chunks.len() - i,
    {
        let toks = tokenize(chunks[i].content.as_str());
        let ghost done = contents.take(i as int);
        let ghost all = string_views(toks@);
        proof {
            assert(contents[i as int] == chunks@[i as int].content@);
            assert(index@ =~= index_with(done, all.take(0), i));
        }
        let mut j: usize = 0;
        while j < toks.len()
            invariant
                j <= toks.len(),
                all == string_views(toks@),
                index.well_formed(),
                index@ == index_with(done, all.take(j as int), i),
            decreases toks.len() - j,
        {
            let ghost before = index@;
            index.add(toks[j].clone(), i);
            proof {
                let upto = all.take(j as int + 1);
                assert(upto.drop_last() == all.take(j as int));
                assert(upto.last() == toks@[j as int]@);
                assert forall|w: Seq<char>|
                    postings_of(done, w) + postings_in(upto, w, i) == if w == upto.last() {
                        (postings_of(done, w) + postings_in(all.take(j as int), w, i)).push(i)
                    } else {
                        postings_of(done, w) + postings_in(all.take(j as int), w, i)
                    } by {}
                let t = upto.last();
                let had = postings_of(done, t) + postings_in(all.take(j as int), t, i);
                if had.len() == 0 {
                    assert(had =~= Seq::<usize>::empty());
                    assert(had.push(i) =~= seq![i]);
                } else {
                    assert(before.contains_key(t));
                    assert(before[t] == had);
                }
                assert(index@[t] == had.push(i));
                assert(index@ =~= index_with(done, upto, i));
            }
            j = j + 1;
        }
        proof {
            let next = contents.take(i as int + 1);
            assert(all.take(toks.len() as int) == all);
            assert(next.drop_last() == done);
            assert(next.last() == contents[i as int]);
            assert(index@ =~= index_of(next));
        }
        i = i + 1;
    }
    proof {
        assert(contents.take(chunks.len() as int) == contents);
    }
    index
}

} // verus!
