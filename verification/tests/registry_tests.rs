use docq::registry::{embedding_kind_for, tokenizer_spec, EmbeddingKind, ModelRegistry};

#[test]
fn test_registry_defaults() {
    let emb = ModelRegistry::default_embedding();
    assert_eq!(emb.role, "embedding");
    assert_eq!(emb.repo_id, "BAAI/bge-small-zh-v1.5");

    let rnk = ModelRegistry::default_reranker();
    assert_eq!(rnk.role, "reranker");

    let llm = ModelRegistry::default_llm();
    assert_eq!(llm.role, "chat");
    assert!(llm.filename.ends_with(".gguf"));
}

#[test]
fn defaults_use_main_revision_without_checksum() {
    for m in [
        ModelRegistry::default_embedding(),
        ModelRegistry::default_reranker(),
        ModelRegistry::default_llm(),
    ] {
        assert_eq!(m.revision, "main");
        assert!(m.checksum.is_none());
    }
    assert_eq!(ModelRegistry::default_reranker().repo_id, "BAAI/bge-reranker-base");
    assert_eq!(ModelRegistry::default_llm().repo_id, "Qwen/Qwen2.5-7B-Instruct-GGUF");
}

#[test]
fn embedding_kinds() {
    assert_eq!(embedding_kind_for("BAAI/bge-small-zh-v1.5").unwrap(), EmbeddingKind::BgeSmallZhV15);
    assert_eq!(embedding_kind_for("BAAI/bge-large-zh-v1.5").unwrap(), EmbeddingKind::BgeLargeZhV15);
    assert_eq!(embedding_kind_for("BAAI/bge-m3").unwrap(), EmbeddingKind::BgeM3);
    let e = embedding_kind_for("foo/bar").unwrap_err();
    assert_eq!(e.message(), "model error: unsupported embedding model: foo/bar");
}

#[test]
fn default_embedding_is_supported() {
    let emb = ModelRegistry::default_embedding();
    assert!(embedding_kind_for(&emb.repo_id).is_ok());
}

#[test]
fn tokenizer_spec_follows_embedding_repo() {
    let emb = ModelRegistry::default_embedding();
    let t = tokenizer_spec(&emb);
    assert_eq!(t.role, "tokenizer");
    assert_eq!(t.repo_id, emb.repo_id);
    assert_eq!(t.filename, "tokenizer.json");
    assert_eq!(t.revision, emb.revision);
    assert!(t.checksum.is_none());
}
