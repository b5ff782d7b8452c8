//! Extension points implemented by the pipeline's components.
use vstd::prelude::*;
use crate::error::DocqError;
use crate::models::ChunkCandidate;

verus! {

/// Splits a document's text into chunk candidates.
pub trait Chunker {
    fn chunk(&self, text: &str) -> Vec<ChunkCandidate>;
}

/// Segments text into space-separated words for full-text indexing.
pub trait WordSegmenter {
    fn segment(&self, text: &str) -> String;
}

/// A text-completion language model.
pub trait Llm {
    fn complete(&self, prompt: &str) -> Result<String, DocqError>;
}

} // verus!
