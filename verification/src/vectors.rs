//! Embedding configuration and the errors of embedding and vector search.

use vstd::prelude::*;

verus! {

/// Errors of an embedding provider.
#[derive(Debug)]
pub enum EmbeddingError {
    ModelNotLoaded(String),
    InferenceFailed(String),
    ApiError(String),
}

/// Which embedding provider to use.
#[derive(Debug)]
pub enum EmbeddingConfig {
    /// A local ONNX model (server side only).
    Local { model_path: String, model_name: String },
    /// A remote embedding API.
    Remote { api_url: String, api_key: Option<String>, model_name: String },
    /// No embedding: vectors are given directly.
    NoProvider,
}

/// A mock embedding provider for testing: deterministic embeddings of a
/// fixed number of dimensions, computed from the text's bytes.
#[derive(Debug)]
pub struct MockEmbedding {
    dims: usize,
}

impl MockEmbedding {
    pub fn new(dims: usize) -> (r: MockEmbedding)
        ensures
            r.dims() == dims,
    {
        MockEmbedding { dims }
    }

    pub closed spec fn dims(&self) -> usize {
        self.dims
    }

    /// The number of dimensions of its embeddings.
    pub fn dimensions(&self) -> (r: usize)
        ensures
            r == self.dims(),
    {
        self.dims
    }

    /// The provider's model name.
    pub fn model_name(&self) -> (r: &'static str)
        ensures
            r@ == "mock-embedding"@,
    {
        "mock-embedding"
    }
}

/// Errors of the vector index.
#[derive(Debug, PartialEq, Eq)]
pub enum VectorError {
    DimensionMismatch { expected: usize, got: usize },
    IndexError(String),
}

} // verus!
