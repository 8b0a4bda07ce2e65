//! The knowledge base: documents, their chunks and the inverted index, kept
//! in step and replaced as a whole.

use crate::chunker::{chunks_of, lemma_chunks_hold_words, sentences_in};
use crate::index::{build_index, index_of, WordIndex};
use crate::model::{chunk_contents, same_chunks, same_documents, Document, DocumentChunk};
use crate::ranking::{is_candidate, rank_chunks, ranking_of};
use crate::search::{lemma_terms_of_same_chunks, score_terms, score_terms_of, ScoreTerm};
use crate::text::{same_text, string_views};
use vstd::prelude::*;

verus! {

/// Calls `uuid::Uuid::new_v4` and formats the identifier with its `Display`
/// impl, which writes the hyphenated form: 36 characters. Which identifier
/// comes is left open.
#[verifier::external_body]
pub(crate) fn fresh_id() -> (id: String)
    ensures
        id@.len() == 36,
{
    uuid::Uuid::new_v4().to_string()
}

/// A file that was read: what a document is made from.
#[derive(Debug, Clone)]
pub struct SourceText {
    /// Title of the document.
    pub title: String,
    /// The text that was extracted from the file.
    pub content: String,
    /// Path of the file.
    pub source: String,
}

/// What a build made.
#[derive(Debug, Clone, Copy, PartialEq, Eq)]
pub struct BuildStats {
    /// Number of documents.
    pub document_count: usize,
    /// Number of chunks.
    pub chunk_count: usize,
}

/// The keys that a search goes by: those at positions that hold a chunk.
pub open spec fn keys_in_reach(keys: Seq<u64>, chunks: nat) -> Seq<u64> {
    if keys.len() <= chunks {
        keys
    } else {
        keys.take(chunks as int)
    }
}

/// Whether `cut` holds the chunks of `doc`: one for each chunk of the
/// document's text, in order, numbered from 0, its words counted, under the
/// document's identifier.
pub open spec fn cut_from(doc: Document, cut: Seq<DocumentChunk>) -> bool {
    let texts = chunks_of(sentences_in(doc.content@));
    &&& cut.len() == texts.len()
    &&& forall|j: int|
        0 <= j < cut.len() ==> {
            &&& (#[trigger] cut[j]).document_id@ == doc.id@
            &&& cut[j].content@ == texts[j]
            &&& cut[j].chunk_index == j
            &&& cut[j].counted()
        }
}

/// Whether `chunks` holds the chunks of each of `docs`, document after
/// document, and nothing else.
pub open spec fn laid_out(docs: Seq<Document>, chunks: Seq<DocumentChunk>) -> bool
    decreases docs.len(),
{
    if docs.len() == 0 {
        chunks.len() == 0
    } else {
        let n = chunks_of(sentences_in(docs.last().content@)).len();
        &&& n <= chunks.len()
        &&& cut_from(docs.last(), chunks.skip(chunks.len() - n))
        &&& laid_out(docs.drop_last(), chunks.take(chunks.len() - n))
    }
}

/// Whether `doc` is the document that a build makes of `file`.
pub open spec fn made_from(doc: Document, file: SourceText) -> bool {
    &&& doc.title@ == file.title@
    &&& doc.content@ == file.content@
    &&& doc.source@ == file.source@
    &&& doc.chunk_index == 0
    &&& doc.metadata@.len() == 0
    &&& doc.id@.len() == 36
}

/// Name of the stored resource that holds the documents.
pub const DOCUMENTS_FILE: &'static str = "documents.json";

/// Name of the stored resource that holds the chunks.
pub const CHUNKS_FILE: &'static str = "chunks.json";

/// Name of the stored resource that holds the inverted index.
pub const WORD_INDEX_FILE: &'static str = "word_index.json";

/// Which of the three stored resources exist in the model directory.
#[derive(Debug, Clone, Copy, PartialEq, Eq)]
pub struct ModelFiles {
    /// Whether the documents resource exists.
    pub documents: bool,
    /// Whether the chunks resource exists.
    pub chunks: bool,
    /// Whether the index resource exists.
    pub word_index: bool,
}

/// One of the three stored resources.
#[derive(Debug, Clone, Copy, PartialEq, Eq)]
pub enum ResourceKind {
    Documents,
    Chunks,
    WordIndex,
}

/// What reading one stored resource gave.
pub enum Resource<T> {
    /// The resource does not exist.
    Missing,
    /// The resource exists and could not be read.
    Unreadable,
    /// The resource was read and does not hold what it should.
    Malformed,
    /// The value that the resource holds.
    Loaded(T),
}

/// Why a stored model could not be loaded.
#[derive(Debug, Clone, Copy, PartialEq, Eq)]
pub enum LoadError {
    /// The resource could not be read.
    Io(ResourceKind),
    /// The resource does not hold what it should.
    Serialization(ResourceKind),
}

/// The error that reading a resource of kind `kind` gave, if it gave one.
pub open spec fn failure_of<T>(resource: Resource<T>, kind: ResourceKind) -> Option<LoadError> {
    match resource {
        Resource::Unreadable => Some(LoadError::Io(kind)),
        Resource::Malformed => Some(LoadError::Serialization(kind)),
        _ => None,
    }
}

/// How a load ends: with `Ok(false)` where one of the three resources is
/// missing; else with the first error among documents, chunks and index, in
/// this order; else with `Ok(true)`.
pub open spec fn load_outcome(
    documents: Resource<Vec<Document>>,
    chunks: Resource<Vec<DocumentChunk>>,
    word_index: Resource<WordIndex>,
) -> Result<bool, LoadError> {
    if documents is Missing || chunks is Missing || word_index is Missing {
        Ok(false)
    } else if failure_of(documents, ResourceKind::Documents) is Some {
        Err(failure_of(documents, ResourceKind::Documents)->0)
    } else if failure_of(chunks, ResourceKind::Chunks) is Some {
        Err(failure_of(chunks, ResourceKind::Chunks)->0)
    } else if failure_of(word_index, ResourceKind::WordIndex) is Some {
        Err(failure_of(word_index, ResourceKind::WordIndex)->0)
    } else {
        Ok(true)
    }
}

/// The knowledge base.
pub struct RagSystem {
    documents: Vec<Document>,
    chunks: Vec<DocumentChunk>,
    agentic_dir: String,
    data_dir: String,
    word_index: WordIndex,
}

impl RagSystem {
    /// Whether the index is in order: every method leaves it so.
    pub closed spec fn well_formed(&self) -> bool {
        self.word_index.well_formed()
    }

    /// The documents, in the order in which they were read.
    pub closed spec fn document_seq(&self) -> Seq<Document> {
        self.documents@
    }

    /// The chunks, in the order in which they were indexed.
    pub closed spec fn chunk_seq(&self) -> Seq<DocumentChunk> {
        self.chunks@
    }

    /// The inverted index: for each word its posting list.
    pub closed spec fn index_map(&self) -> Map<Seq<char>, Seq<usize>> {
        self.word_index@
    }

    /// The directory that holds the stored model.
    pub closed spec fn model_dir(&self) -> Seq<char> {
        self.agentic_dir@
    }

    /// The directory that holds the source files.
    pub closed spec fn source_dir(&self) -> Seq<char> {
        self.data_dir@
    }

    /// An empty knowledge base over the two directories.
    pub fn new(agentic_dir: &str, data_dir: &str) -> (system: RagSystem)
        ensures
            system.well_formed(),
            system.document_seq().len() == 0,
            system.chunk_seq().len() == 0,
            system.index_map() == Map::<Seq<char>, Seq<usize>>::empty(),
            system.model_dir() == agentic_dir@,
            system.source_dir() == data_dir@,
    {
        RagSystem {
            documents: Vec::new(),
            chunks: Vec::new(),
            agentic_dir: agentic_dir.to_owned(),
            data_dir: data_dir.to_owned(),
            word_index: WordIndex::new(),
        }
    }

    /// Adds a document with a fresh identifier, and its chunks, each with a
    /// fresh identifier, behind those that the collections hold. The index is
    /// left as it is.
    pub fn create_document(&mut self, title: String, content: String, source: String)
        ensures
            old(self).well_formed() ==> final(self).well_formed(),
            final(self).document_seq().len() == old(self).document_seq().len() + 1,
            final(self).document_seq().drop_last() == old(self).document_seq(),
            made_from(
                final(self).document_seq().last(),
                SourceText { title, content, source },
            ),
            final(self).chunk_seq().len() >= old(self).chunk_seq().len(),
            final(self).chunk_seq().take(old(self).chunk_seq().len() as int)
                == old(self).chunk_seq(),
            cut_from(
                final(self).document_seq().last(),
                final(self).chunk_seq().skip(old(self).chunk_seq().len() as int),
            ),
            forall|k: int|
                #![trigger final(self).chunk_seq()[k]]
                old(self).chunk_seq().len() <= k < final(self).chunk_seq().len() ==> final(self)
                    .chunk_seq()[k].word_count > 0,
            final(self).index_map() == old(self).index_map(),
            final(self).model_dir() == old(self).model_dir(),
            final(self).source_dir() == old(self).source_dir(),
    {
        let doc_id = fresh_id();
        let texts = self.chunk_text(content.as_str());
        let document = Document::new(doc_id.clone(), title, content, source);
        let ghost doc = document;
        let ghost before = self.chunks@;
        self.documents.push(document);
        let mut i: usize = 0;
        while i < texts.len()
            invariant
                i <= texts.len(),
                string_views(texts@) == chunks_of(sentences_in(doc.content@)),
                doc_id@ == doc.id@,
                self.documents@ == old(self).documents@.push(doc),
                self.word_index == old(self).word_index,
                self.agentic_dir == old(self).agentic_dir,
                self.data_dir == old(self).data_dir,
                self.chunks@.len() == before.len() + i,
                self.chunks@.take(before.len() as int) == before,
                forall|j: int|
                    0 <= j < i ==> {
                        &&& (#[trigger] self.chunks@[before.len() + j]).document_id@ == doc.id@
                        &&& self.chunks@[before.len() + j].content@ == texts@[j]@
                        &&& self.chunks@[before.len() + j].chunk_index == j
                        &&& self.chunks@[before.len() + j].counted()
                    },
            decreases texts.len() - i,
        {
            let chunk = DocumentChunk::new(fresh_id(), doc_id.clone(), texts[i].clone(), i);
            let ghost had = self.chunks@;
            self.chunks.push(chunk);
            proof {
                assert(self.chunks@.take(before.len() as int) == had.take(before.len() as int));
                assert forall|j: int| 0 <= j < i implies (#[trigger] self.chunks@[before.len()
                    + j]) == had[before.len() + j] by {}
            }
            i = i + 1;
        }
        proof {
            let cut = self.chunks@.skip(before.len() as int);
            assert forall|j: int| 0 <= j < cut.len() implies {
                &&& (#[trigger] cut[j]).document_id@ == doc.id@
                &&& cut[j].content@ == chunks_of(sentences_in(doc.content@))[j]
                &&& cut[j].chunk_index == j
                &&& cut[j].counted()
            } by {
                assert(cut[j] == self.chunks@[before.len() + j]);
                assert(string_views(texts@)[j] == texts@[j]@);
            }
            assert(self.documents@.drop_last() == old(self).documents@);
            lemma_chunks_hold_words(doc.content@);
            assert forall|k: int| before.len() <= k < self.chunks@.len() implies (
            #[trigger] self.chunks@[k]).word_count > 0 by {
                assert(cut[k - before.len()] == self.chunks@[k]);
            }
        }
    }

    /// The documents.
    pub fn documents(&self) -> (docs: &Vec<Document>)
        ensures
            docs@ == self.document_seq(),
    {
        &self.documents
    }

    /// The chunks.
    pub fn chunks(&self) -> (chunks: &Vec<DocumentChunk>)
        ensures
            chunks@ == self.chunk_seq(),
    {
        &self.chunks
    }

    /// The inverted index.
    pub fn word_index(&self) -> (index: &WordIndex)
        ensures
            index@ == self.index_map(),
            self.well_formed() ==> index.well_formed(),
    {
        &self.word_index
    }

    /// The directory that holds the stored model.
    pub fn agentic_dir(&self) -> (dir: &str)
        ensures
            dir@ == self.model_dir(),
    {
        self.agentic_dir.as_str()
    }

    /// The directory that holds the source files.
    pub fn data_dir(&self) -> (dir: &str)
        ensures
            dir@ == self.source_dir(),
    {
        self.data_dir.as_str()
    }

    /// Replaces the index by the inverted index of the chunks.
    pub fn build_word_index(&mut self)
        ensures
            final(self).well_formed(),
            final(self).index_map() == index_of(chunk_contents(final(self).chunk_seq())),
            final(self).document_seq() == old(self).document_seq(),
            final(self).chunk_seq() == old(self).chunk_seq(),
            final(self).model_dir() == old(self).model_dir(),
            final(self).source_dir() == old(self).source_dir(),
    {
        self.word_index = build_index(&self.chunks);
    }

    /// Replaces the whole knowledge base by what `files` give: one document
    /// for each file, in order, the chunks of each, and the index of all
    /// chunks.
    pub fn build_local_model(&mut self, files: Vec<SourceText>) -> (stats: BuildStats)
        ensures
            final(self).well_formed(),
            final(self).document_seq().len() == files.len(),
            forall|i: int|
                0 <= i < files.len() ==> made_from(
                    #[trigger] final(self).document_seq()[i],
                    files[i],
                ),
            laid_out(final(self).document_seq(), final(self).chunk_seq()),
            forall|k: int|
                #![trigger final(self).chunk_seq()[k]]
                0 <= k < final(self).chunk_seq().len() ==> final(self).chunk_seq()[k].word_count
                    > 0,
            final(self).index_map() == index_of(chunk_contents(final(self).chunk_seq())),
            final(self).model_dir() == old(self).model_dir(),
            final(self).source_dir() == old(self).source_dir(),
            stats.document_count == final(self).document_seq().len(),
            stats.chunk_count == final(self).chunk_seq().len(),
    {
        self.documents = Vec::new();
        self.chunks = Vec::new();
        self.word_index = WordIndex::new();
        let mut files = files;
        let ghost all = files@;
        let mut i: usize = 0;
        while i < files.len()
            invariant
                i <= files.len(),
                files@.len() == all.len(),
                forall|k: int| i <= k < files.len() ==> files@[k] == all[k],
                self.documents@.len() == i,
                forall|k: int| 0 <= k < i ==> made_from(#[trigger] self.documents@[k], all[k]),
                laid_out(self.documents@, self.chunks@),
                forall|k: int|
                    0 <= k < self.chunks@.len() ==> (#[trigger] self.chunks@[k]).word_count > 0,
                self.agentic_dir@ == old(self).agentic_dir@,
                self.data_dir@ == old(self).data_dir@,
            decreases files.len() - i,
        {
            let ghost docs = self.documents@;
            let ghost chunks = self.chunks@;
            let file = take_file(&mut files, i);
            self.create_document(file.title, file.content, file.source);
            proof {
                let n = self.chunks@.len() - chunks.len();
                assert(self.documents@.drop_last() == docs);
                assert(self.chunks@.take(self.chunks@.len() - n) == chunks);
                assert forall|k: int| 0 <= k < self.chunks@.len() implies (
                #[trigger] self.chunks@[k]).word_count > 0 by {
                    if k < chunks.len() {
                        assert(self.chunks@[k] == chunks[k]);
                    }
                }
                assert forall|k: int| 0 <= k < i + 1 implies made_from(
                    #[trigger] self.documents@[k],
                    all[k],
                ) by {
                    if k < i {
                        assert(self.documents@[k] == docs[k]);
                    }
                }
            }
            i = i + 1;
        }
        self.build_word_index();
        BuildStats { document_count: self.documents.len(), chunk_count: self.chunks.len() }
    }

    /// Takes over a stored model. Where all three resources were read, they
    /// replace the knowledge base and the result is `Ok(true)`. Where one is
    /// missing, the result is `Ok(false)`; where one could not be read or is
    /// malformed, the first such error. In both cases nothing changes.
    pub fn load_model(
        &mut self,
        documents: Resource<Vec<Document>>,
        chunks: Resource<Vec<DocumentChunk>>,
        word_index: Resource<WordIndex>,
    ) -> (result: Result<bool, LoadError>)
        requires
            word_index is Loaded ==> word_index->Loaded_0.well_formed(),
        ensures
            result == load_outcome(documents, chunks, word_index),
            result == Ok::<bool, LoadError>(true) ==> {
                &&& final(self).well_formed()
                &&& final(self).document_seq() == documents->Loaded_0@
                &&& final(self).chunk_seq() == chunks->Loaded_0@
                &&& final(self).index_map() == word_index->Loaded_0@
            },
            result != Ok::<bool, LoadError>(true) ==> {
                &&& old(self).well_formed() ==> final(self).well_formed()
                &&& final(self).document_seq() == old(self).document_seq()
                &&& final(self).chunk_seq() == old(self).chunk_seq()
                &&& final(self).index_map() == old(self).index_map()
            },
            final(self).model_dir() == old(self).model_dir(),
            final(self).source_dir() == old(self).source_dir(),
    {
        match (documents, chunks, word_index) {
            (Resource::Missing, _, _) | (_, Resource::Missing, _) | (_, _, Resource::Missing) => Ok(
                false,
            ),
            (Resource::Unreadable, _, _) => Err(LoadError::Io(ResourceKind::Documents)),
            (Resource::Malformed, _, _) => Err(LoadError::Serialization(ResourceKind::Documents)),
            (_, Resource::Unreadable, _) => Err(LoadError::Io(ResourceKind::Chunks)),
            (_, Resource::Malformed, _) => Err(LoadError::Serialization(ResourceKind::Chunks)),
            (_, _, Resource::Unreadable) => Err(LoadError::Io(ResourceKind::WordIndex)),
            (_, _, Resource::Malformed) => Err(LoadError::Serialization(ResourceKind::WordIndex)),
            (Resource::Loaded(d), Resource::Loaded(c), Resource::Loaded(w)) => {
                self.documents = d;
                self.chunks = c;
                self.word_index = w;
                Ok(true)
            },
        }
    }

    /// Whether a stored model is there: all three resources exist.
    pub fn is_model_available(&self, files: &ModelFiles) -> (available: bool)
        ensures
            available == (files.documents && files.chunks && files.word_index),
    {
        files.documents && files.chunks && files.word_index
    }

    /// The number of documents and the number of chunks.
    pub fn get_stats(&self) -> (stats: (usize, usize))
        ensures
            stats.0 == self.document_seq().len(),
            stats.1 == self.chunk_seq().len(),
    {
        (self.documents.len(), self.chunks.len())
    }

    /// The first document whose identifier is `doc_id`.
    pub fn get_document_by_id(&self, doc_id: &str) -> (found: Option<&Document>)
        ensures
            match found {
                Some(doc) => exists|i: int|
                    0 <= i < self.document_seq().len() && *doc == #[trigger] self.document_seq()[i]
                        && doc.id@ == doc_id@ && forall|k: int|
                        0 <= k < i ==> (#[trigger] self.document_seq()[k]).id@ != doc_id@,
                None => forall|k: int|
                    0 <= k < self.document_seq().len() ==> (#[trigger] self.document_seq()[k]).id@
                        != doc_id@,
            },
    {
        let mut i: usize = 0;
        while i < self.documents.len()
            invariant
                i <= self.documents.len(),
                forall|k: int| 0 <= k < i ==> (#[trigger] self.documents@[k]).id@ != doc_id@,
            decreases self.documents.len() - i,
        {
            if same_text(self.documents[i].id.as_str(), doc_id) {
                proof {
                    assert(self.document_seq()[i as int] == self.documents@[i as int]);
                }
                return Some(&self.documents[i]);
            }
            i = i + 1;
        }
        None
    }

    /// Ranks the chunks by `keys`, where `keys[p]` stands for the score of
    /// the chunk at position `p`: a larger key for a larger score, and 0 for
    /// a score that is not above zero. The result holds the chunks with a
    /// key above zero, each with its key, from the largest key down, chunks
    /// of equal key in their order in the collection, at most `top_k` of
    /// them.
    pub fn search_local<'a>(&'a self, keys: &Vec<u64>, top_k: usize) -> (results: Vec<
        (u64, &'a DocumentChunk),
    >)
        ensures
            results.len() == ranking_of(
                keys_in_reach(keys@, self.chunk_seq().len()),
                top_k as nat,
            ).len(),
            forall|i: int|
                #![trigger results[i]]
                0 <= i < results.len() ==> {
                    let p = ranking_of(keys_in_reach(keys@, self.chunk_seq().len()), top_k as nat)[i];
                    &&& p < keys.len()
                    &&& p < self.chunk_seq().len()
                    &&& results[i].0 == keys[p as int]
                    &&& *results[i].1 == self.chunk_seq()[p as int]
                },
            results.len() <= top_k,
            forall|i: int| 0 <= i < results.len() ==> (#[trigger] results[i]).0 > 0,
            forall|a: int, b: int|
                0 <= a < b < results.len() ==> (#[trigger] results[a]).0 >= (#[trigger] results[b]).0,
            self.chunk_seq().len() == 0 ==> results.len() == 0,
    {
        let mut within: Vec<u64> = Vec::new();
        let bound = if keys.len() <= self.chunks.len() {
            keys.len()
        } else {
            self.chunks.len()
        };
        let mut k: usize = 0;
        while k < bound
            invariant
                k <= bound <= keys.len(),
                within@ == keys@.take(k as int),
            decreases bound - k,
        {
            within.push(keys[k]);
            proof {
                assert(keys@.take(k as int + 1) == keys@.take(k as int).push(keys@[k as int]));
            }
            k = k + 1;
        }
        proof {
            assert(keys@.take(keys.len() as int) == keys@);
            assert(within@ == keys_in_reach(keys@, self.chunk_seq().len()));
        }
        let ranked = rank_chunks(&within, top_k);
        let mut results: Vec<(u64, &'a DocumentChunk)> = Vec::new();
        let mut i: usize = 0;
        while i < ranked.len()
            invariant
                i <= ranked.len(),
                results.len() == i,
                within.len() <= self.chunks.len(),
                within.len() <= keys.len(),
                within@ == keys@.take(within.len() as int),
                forall|a: int| 0 <= a < ranked.len() ==> is_candidate(within@, #[trigger] ranked[a] as int),
                forall|a: int|
                    #![trigger results[a]]
                    0 <= a < i ==> results[a].0 == keys[ranked[a] as int] && *results[a].1
                        == self.chunks@[ranked[a] as int],
            decreases ranked.len() - i,
        {
            let p: usize = ranked[i];
            proof {
                assert(is_candidate(within@, ranked[i as int] as int));
            }
            results.push((within[p], &self.chunks[p]));
            i = i + 1;
        }
        proof {
            assert forall|a: int| 0 <= a < results.len() implies (#[trigger] results[a]).0 > 0 by {
                assert(is_candidate(within@, ranked[a] as int));
            }
            assert forall|a: int, b: int| 0 <= a < b < results.len() implies (
            #[trigger] results[a]).0 >= (#[trigger] results[b]).0 by {
                assert(is_candidate(within@, ranked[a] as int));
                assert(is_candidate(within@, ranked[b] as int));
            }
            if ranked.len() > 0 {
                assert(is_candidate(within@, ranked[0] as int));
            }
        }
        results
    }

    /// The terms of the scores that `query` gives the chunks.
    pub fn score_terms(&self, query: &str) -> (terms: Vec<ScoreTerm>)
        requires
            self.well_formed(),
        ensures
            terms@ == score_terms_of(self.chunk_seq(), self.index_map(), query@),
            self.chunk_seq().len() == 0 ==> terms.len() == 0,
    {
        score_terms(&self.chunks, &self.word_index, query)
    }
}

/// A knowledge base that holds, field by field, the documents and chunks of
/// another, and the same index, gives every query the same terms, and so the
/// same scores and the same ranking: what was stored and loaded again answers
/// as what was built.
pub proof fn lemma_restored_model_answers_alike(
    stored: RagSystem,
    loaded: RagSystem,
    query: Seq<char>,
)
    requires
        same_documents(stored.document_seq(), loaded.document_seq()),
        same_chunks(stored.chunk_seq(), loaded.chunk_seq()),
        stored.index_map() == loaded.index_map(),
    ensures
        score_terms_of(loaded.chunk_seq(), loaded.index_map(), query) == score_terms_of(
            stored.chunk_seq(),
            stored.index_map(),
            query,
        ),
{
    lemma_terms_of_same_chunks(stored.chunk_seq(), loaded.chunk_seq(), stored.index_map(), query);
}

/// Takes the file at `at` out of `files` and leaves an empty one in its place.
fn take_file(files: &mut Vec<SourceText>, at: usize) -> (file: SourceText)
    requires
        at < old(files).len(),
    ensures
        file == old(files)[at as int],
        final(files).len() == old(files).len(),
        forall|k: int| 0 <= k < old(files).len() && k != at ==> final(files)[k] == old(files)[k],
{
    let mut file = SourceText { title: String::new(), content: String::new(), source: String::new() };
    std::mem::swap(&mut files[at], &mut file);
    file
}

} // verus!
