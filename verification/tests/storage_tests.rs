use docq::error::{DocqError, StoreError};
use docq::storage::{
    check_per_chunk, chunk_from_row, chunks_by_id_query, document_from_row, model_spec_from_row, poisoned,
    sql_placeholders,
};

#[test]
fn poisoned_lock_error() {
    match poisoned() {
        StoreError::Other(m) => assert_eq!(m, "mutex poisoned"),
    }
    assert_eq!(DocqError::Store(poisoned()).message(), "store error: mutex poisoned");
}

#[test]
fn placeholders() {
    assert_eq!(sql_placeholders(0), "");
    assert_eq!(sql_placeholders(1), "?");
    assert_eq!(sql_placeholders(3), "?,?,?");
    assert_eq!(
        chunks_by_id_query(2),
        "SELECT chunk_id, doc_id, text, start_byte, end_byte FROM chunks WHERE chunk_id IN (?,?)"
    );
}

#[test]
fn per_chunk_lengths_must_agree() {
    assert!(check_per_chunk(3, 3, "embeddings").is_ok());
    let e = check_per_chunk(3, 2, "embeddings").unwrap_err();
    assert_eq!(e.message(), "store error: chunk_ids and embeddings length mismatch");
    let e = check_per_chunk(0, 1, "tokenized_texts").unwrap_err();
    assert_eq!(e.message(), "store error: chunk_ids and tokenized_texts length mismatch");
}

#[test]
fn chunk_rows() {
    let c = chunk_from_row("c".into(), "d".into(), "hello".into(), 6, 11);
    assert_eq!(c.byte_range, 6..11);
    assert_eq!((c.id.as_str(), c.doc_id.as_str(), c.text.as_str()), ("c", "d", "hello"));
}

#[test]
fn document_rows_normalise_timestamps_to_utc() {
    let d = document_from_row("id".into(), "/a.txt".into(), "h".into(), 11, "2024-05-01T10:00:00+02:00").unwrap();
    assert_eq!(d.indexed_at, "2024-05-01T08:00:00+00:00");
    assert_eq!(d.content_size, 11);
    assert_eq!(d.file_path, "/a.txt");
    let e = document_from_row("id".into(), "/a.txt".into(), "h".into(), 11, "yesterday").unwrap_err();
    assert!(matches!(e, DocqError::Store(_)));
}

#[test]
fn model_rows() {
    let m = model_spec_from_row("embedding", "BAAI/bge-small-zh-v1.5".into(), "model.onnx".into(), "main".into(), Some("abc123".into()));
    assert_eq!(m.role, "embedding");
    assert_eq!(m.repo_id, "BAAI/bge-small-zh-v1.5");
    assert_eq!(m.checksum.as_deref(), Some("abc123"));
}
