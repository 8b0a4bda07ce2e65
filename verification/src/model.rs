//! The records of the knowledge base: documents and their chunks.

use crate::text::{count_words, to_chars, word_count};
use vstd::prelude::*;

verus! {

/// A document as it was read in.
#[derive(Debug, Clone)]
pub struct Document {
    /// Identifier, unique within one build.
    pub id: String,
    /// Name of the source file without its extension.
    pub title: String,
    /// The whole extracted text.
    pub content: String,
    /// Path of the source file.
    pub source: String,
    /// Place in the document collection; a fresh document holds 0.
    pub chunk_index: usize,
    /// Further properties, as pairs of key and value, each key once.
    pub metadata: Vec<(String, String)>,
}

/// A chunk: a run of whole sentences of one document.
#[derive(Debug, Clone)]
pub struct DocumentChunk {
    /// Identifier of the chunk.
    pub id: String,
    /// Identifier of the document that the chunk was cut from.
    pub document_id: String,
    /// The text of the chunk.
    pub content: String,
    /// Place of the chunk among the chunks of its document, from 0.
    pub chunk_index: usize,
    /// Number of whitespace-separated words in `content`.
    pub word_count: usize,
}

/// The texts of `chunks`, in order.
pub open spec fn chunk_contents(chunks: Seq<DocumentChunk>) -> Seq<Seq<char>> {
    chunks.map_values(|c: DocumentChunk| c.content@)
}

/// Whether two chunk collections agree, chunk by chunk and field by field.
pub open spec fn same_chunks(a: Seq<DocumentChunk>, b: Seq<DocumentChunk>) -> bool {
    &&& a.len() == b.len()
    &&& forall|i: int|
        0 <= i < a.len() ==> {
            &&& (#[trigger] a[i]).id@ == b[i].id@
            &&& a[i].document_id@ == b[i].document_id@
            &&& a[i].content@ == b[i].content@
            &&& a[i].chunk_index == b[i].chunk_index
            &&& a[i].word_count == b[i].word_count
        }
}

/// Whether two document collections agree, document by document and field by
/// field.
pub open spec fn same_documents(a: Seq<Document>, b: Seq<Document>) -> bool {
    &&& a.len() == b.len()
    &&& forall|i: int|
        0 <= i < a.len() ==> {
            &&& (#[trigger] a[i]).id@ == b[i].id@
            &&& a[i].title@ == b[i].title@
            &&& a[i].content@ == b[i].content@
            &&& a[i].source@ == b[i].source@
            &&& a[i].chunk_index == b[i].chunk_index
            &&& a[i].metadata@.len() == b[i].metadata@.len()
            &&& forall|k: int|
                0 <= k < a[i].metadata@.len() ==> (#[trigger] a[i].metadata@[k]).0@
                    == b[i].metadata@[k].0@ && a[i].metadata@[k].1@ == b[i].metadata@[k].1@
        }
}

impl Document {
    /// A document without metadata.
    pub fn new(id: String, title: String, content: String, source: String) -> (doc: Document)
        ensures
            doc.id == id,
            doc.title == title,
            doc.content == content,
            doc.source == source,
            doc.chunk_index == 0,
            doc.metadata@.len() == 0,
    {
        Document { id, title, content, source, chunk_index: 0, metadata: Vec::new() }
    }
}

impl DocumentChunk {
    /// Whether the recorded word count is that of the content.
    pub open spec fn counted(&self) -> bool {
        self.word_count == word_count(self.content@)
    }

    /// A chunk of the document `document_id`, with its words counted.
    pub fn new(id: String, document_id: String, content: String, chunk_index: usize) -> (chunk:
        DocumentChunk)
        ensures
            chunk.id == id,
            chunk.document_id == document_id,
            chunk.content == content,
            chunk.chunk_index == chunk_index,
            chunk.counted(),
    {
        let word_count = count_words(&to_chars(content.as_str()));
        DocumentChunk { id, document_id, content, chunk_index, word_count }
    }
}

} // verus!
