//! Default model choices and the supported embedding models.
use vstd::prelude::*;
use vstd::string::*;
use crate::models::ModelSpec;
use crate::text::str_equal;

verus! {

// ---- Default embedding model ----
pub const EMBEDDING_REPO: &'static str = "BAAI/bge-small-zh-v1.5";

pub const EMBEDDING_FILE: &'static str = "onnx/model.onnx";

/// Tokenizer file co-located in the same repository as the embedding model.
pub const EMBEDDING_TOKENIZER_FILE: &'static str = "tokenizer.json";

/// Maximum input length the embedding model accepts; chunks longer than this
/// are silently truncated by the runtime, so it bounds the chunk size.
pub const EMBEDDING_MAX_TOKENS: usize = 512;

// ---- Default reranker model ----
pub const RERANKER_REPO: &'static str = "BAAI/bge-reranker-base";

pub const RERANKER_FILE: &'static str = "onnx/model.onnx";

// ---- Default LLM model ----
pub const LLM_REPO: &'static str = "Qwen/Qwen2.5-7B-Instruct-GGUF";

pub const LLM_FILE: &'static str = "qwen2.5-7b-instruct-q4_k_m.gguf";

// ---- Other supported repositories ----
pub const EMBEDDING_REPO_BGE_LARGE_ZH: &'static str = "Xenova/bge-large-zh-v1.5";

pub const EMBEDDING_REPO_BGE_M3: &'static str = "BAAI/bge-m3";

pub const RERANKER_REPO_BGE_V2_M3: &'static str = "BAAI/bge-reranker-v2-m3";

/// Same model as above, mirrored under a different repository.
pub const RERANKER_REPO_BGE_V2_M3_ALT: &'static str = "rozgo/bge-reranker-v2-m3";

pub const RERANKER_REPO_JINA_V1_TURBO_EN: &'static str = "jinaai/jina-reranker-v1-turbo-en";

pub const RERANKER_REPO_JINA_V2_MULTILINGUAL: &'static str = "jinaai/jina-reranker-v2-base-multilingual";

/// A spec with the given fields, revision `main` and no checksum.
pub open spec fn spec_with(role: Seq<char>, repo: Seq<char>, file: Seq<char>) -> (Seq<char>, Seq<
    char,
>, Seq<char>, Seq<char>) {
    (role, repo, file, "main"@)
}

/// `(role, repo_id, filename, revision)` of a spec.
pub open spec fn spec_fields(m: ModelSpec) -> (Seq<char>, Seq<char>, Seq<char>, Seq<char>) {
    (m.role@, m.repo_id@, m.filename@, m.revision@)
}

/// The default model for each role.
pub struct ModelRegistry;

impl ModelRegistry {
    /// The default embedding model: role `embedding`, revision `main`.
    pub fn default_embedding() -> (m: ModelSpec)
        ensures
            spec_fields(m) == spec_with("embedding"@, EMBEDDING_REPO@, EMBEDDING_FILE@),
            m.checksum is None,
    {
        ModelSpec {
            role: String::from_str("embedding"),
            repo_id: String::from_str(EMBEDDING_REPO),
            filename: String::from_str(EMBEDDING_FILE),
            revision: String::from_str("main"),
            checksum: None,
        }
    }

    /// The default reranker: role `reranker`, revision `main`.
    pub fn default_reranker() -> (m: ModelSpec)
        ensures
            spec_fields(m) == spec_with("reranker"@, RERANKER_REPO@, RERANKER_FILE@),
            m.checksum is None,
    {
        ModelSpec {
            role: String::from_str("reranker"),
            repo_id: String::from_str(RERANKER_REPO),
            filename: String::from_str(RERANKER_FILE),
            revision: String::from_str("main"),
            checksum: None,
        }
    }

    /// The default chat model: role `chat`, revision `main`.
    pub fn default_llm() -> (m: ModelSpec)
        ensures
            spec_fields(m) == spec_with("chat"@, LLM_REPO@, LLM_FILE@),
            m.checksum is None,
    {
        ModelSpec {
            role: String::from_str("chat"),
            repo_id: String::from_str(LLM_REPO),
            filename: String::from_str(LLM_FILE),
            revision: String::from_str("main"),
            checksum: None,
        }
    }
}

/// Embedding models the embedding backend can load.
#[derive(Debug, Clone, Copy, PartialEq, Eq, Structural)]
pub enum EmbeddingKind {
    BgeSmallZhV15,
    BgeLargeZhV15,
    BgeM3,
}

/// The embedding model a repository id names, if supported.
pub open spec fn embedding_kind_of(repo_id: Seq<char>) -> Option<EmbeddingKind> {
    if repo_id == "BAAI/bge-small-zh-v1.5"@ {
        Some(EmbeddingKind::BgeSmallZhV15)
    } else if repo_id == "BAAI/bge-large-zh-v1.5"@ {
        Some(EmbeddingKind::BgeLargeZhV15)
    } else if repo_id == "BAAI/bge-m3"@ {
        Some(EmbeddingKind::BgeM3)
    } else {
        None
    }
}

/// Map a repository id to a supported embedding model; unsupported ids are
/// reported as `unsupported embedding model: <id>`.
pub fn embedding_kind_for(repo_id: &str) -> (r: Result<EmbeddingKind, crate::error::DocqError>)
    ensures
        r is Ok <==> embedding_kind_of(repo_id@) is Some,
        r is Ok ==> Some(r->Ok_0) == embedding_kind_of(repo_id@),
        r is Err ==> r->Err_0 is Model && r->Err_0.detail() == "unsupported embedding model: "@
            + repo_id@,
{
    if str_equal(repo_id, "BAAI/bge-small-zh-v1.5") {
        Ok(EmbeddingKind::BgeSmallZhV15)
    } else if str_equal(repo_id, "BAAI/bge-large-zh-v1.5") {
        Ok(EmbeddingKind::BgeLargeZhV15)
    } else if str_equal(repo_id, "BAAI/bge-m3") {
        Ok(EmbeddingKind::BgeM3)
    } else {
        let mut m = String::from_str("unsupported embedding model: ");
        m.append(repo_id);
        Err(crate::error::DocqError::Model(crate::error::ModelError::Other(m)))
    }
}


/// The spec of the tokenizer file shipped in the embedding model's repository.
pub fn tokenizer_spec(embedding: &ModelSpec) -> (t: ModelSpec)
    ensures
        spec_fields(t) == (
            "tokenizer"@,
            embedding.repo_id@,
            EMBEDDING_TOKENIZER_FILE@,
            embedding.revision@,
        ),
        t.checksum is None,
{
    ModelSpec {
        role: String::from_str("tokenizer"),
        repo_id: embedding.repo_id.clone(),
        filename: String::from_str(EMBEDDING_TOKENIZER_FILE),
        revision: embedding.revision.clone(),
        checksum: None,
    }
}

} // verus!
