use vstd::prelude::*;

verus! {

/// The number of token indices that the model reads per text.
pub const MAX_SEQ_LEN: usize = 128;

/// The sizes of the classifier's layers and of its input.
#[derive(Clone, Copy, Debug, PartialEq, Eq, Structural)]
pub struct ModelConfig {
    pub vocab_size: usize,
    pub embedding_size: usize,
    pub hidden_size: usize,
    pub n_classes: usize,
    pub max_seq_len: usize,
}

impl ModelConfig {
    /// A vocabulary of 1000, embeddings of 15, a hidden layer of 20, two
    /// classes and inputs of [`MAX_SEQ_LEN`] indices.
    pub fn default() -> (c: ModelConfig)
        ensures
            c.vocab_size == 1000,
            c.embedding_size == 15,
            c.hidden_size == 20,
            c.n_classes == 2,
            c.max_seq_len == MAX_SEQ_LEN,
    {
        ModelConfig {
            vocab_size: 1000,
            embedding_size: 15,
            hidden_size: 20,
            n_classes: 2,
            max_seq_len: MAX_SEQ_LEN,
        }
    }
}

/// A request to classify one text.
#[derive(Clone, Debug, PartialEq, Eq)]
pub struct PredictRequest {
    pub text: String,
}

} // verus!
