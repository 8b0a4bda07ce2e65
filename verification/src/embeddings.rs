//! The dimensions of a bag-of-words embedding.

use vstd::prelude::*;

verus! {

/// The size of a vocabulary and the number of dimensions of the vectors that
/// stand for texts over it.
#[derive(Debug, Clone, Copy, PartialEq, Eq)]
pub struct EmbeddingModel {
    vocab_size: usize,
    embedding_dim: usize,
}

impl EmbeddingModel {
    /// Number of words in the vocabulary.
    pub closed spec fn spec_vocab_size(&self) -> usize {
        self.vocab_size
    }

    /// Number of dimensions of an embedding.
    pub closed spec fn spec_embedding_dim(&self) -> usize {
        self.embedding_dim
    }

    /// A model of the given dimensions.
    pub fn new(vocab_size: usize, embedding_dim: usize) -> (model: EmbeddingModel)
        ensures
            model.spec_vocab_size() == vocab_size,
            model.spec_embedding_dim() == embedding_dim,
    {
        EmbeddingModel { vocab_size, embedding_dim }
    }

    /// Number of words in the vocabulary.
    #[verifier::when_used_as_spec(spec_vocab_size)]
    pub fn vocab_size(&self) -> (n: usize)
        ensures
            n == self.spec_vocab_size(),
    {
        self.vocab_size
    }

    /// Number of dimensions of an embedding.
    #[verifier::when_used_as_spec(spec_embedding_dim)]
    pub fn embedding_dim(&self) -> (n: usize)
        ensures
            n == self.spec_embedding_dim(),
    {
        self.embedding_dim
    }
}

} // verus!
