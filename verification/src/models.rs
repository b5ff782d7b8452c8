//! The plain data model: documents, chunks, answers and model specs.
use vstd::prelude::*;
use core::ops::Range;

verus! {

/// `Clone::clone` of `core::ops::Range` (derived in core, used by the
/// derived `Clone` of the types below): each bound of the copy is a clone
/// of the same bound of the range copied.
pub assume_specification<Idx: Clone>[ <Range<Idx> as Clone>::clone ](r: &Range<Idx>) -> (c: Range<
    Idx,
>)
    ensures
        vstd::pervasive::cloned(r.start, c.start),
        vstd::pervasive::cloned(r.end, c.end),
;

/// An indexed source file.
#[derive(Debug, Clone)]
pub struct Document {
    /// Content address of the file path; the primary identifier.
    pub id: String,
    /// The file's path as it was read.
    pub file_path: String,
    /// Lowercase hex SHA-256 of the file content; drives incremental reindex.
    pub content_hash: String,
    /// UTF-8 byte length of the content.
    pub content_size: usize,
    /// RFC 3339 UTC timestamp of the last successful index.
    pub indexed_at: String,
}

/// A stored text block.
#[derive(Debug, Clone)]
pub struct Chunk {
    /// Content address of `text`; identical text is stored once.
    pub id: String,
    /// `Document.id` this chunk belongs to.
    pub doc_id: String,
    /// The full text that is embedded.
    pub text: String,
    pub byte_range: Range<usize>,
}

/// A chunk produced by a chunker, before it is addressed and stored.
#[derive(Debug, Clone)]
pub struct ChunkCandidate {
    pub text: String,
    pub byte_range: Range<usize>,
}

impl ChunkCandidate {
    /// `(text, start, end)`.
    pub open spec fn view_triple(self) -> (Seq<char>, int, int) {
        (self.text@, self.byte_range.start as int, self.byte_range.end as int)
    }
}

/// A synthesised answer with the sources it cites.
#[derive(Debug, Clone)]
pub struct Answer {
    pub text: String,
    pub citations: Vec<Citation>,
}

/// One cited source.
#[derive(Debug, Clone)]
pub struct Citation {
    /// Marker as printed in the answer text, e.g. `[1]`.
    pub marker: String,
    /// Human-readable source, e.g. `docs/a.txt (bytes 120-512)`.
    pub source: String,
}

/// Where a model comes from and what role it plays.
#[derive(Debug, Clone)]
pub struct ModelSpec {
    /// `embedding` / `reranker` / `chat`.
    pub role: String,
    pub repo_id: String,
    pub filename: String,
    pub revision: String,
    pub checksum: Option<String>,
}

/// A named directory whose files are indexed together.
#[derive(Debug, Clone)]
pub struct Collection {
    pub name: String,
    pub path: String,
}

/// Counts reported by `status`.
#[derive(Debug, Clone)]
pub struct EngineStatus {
    pub documents: usize,
    pub chunks: usize,
    pub collections: Vec<Collection>,
}

/// A file's path and its text content.
#[derive(Debug, Clone)]
pub struct DocumentSource {
    pub path: String,
    pub content: String,
}

} // verus!
