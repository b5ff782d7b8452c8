use docq::engine::{engine_config, index_summary, llm_not_loaded, select_collection, status_of};
use docq::verbose::Verbose;
use std::path::PathBuf;
use docq::indexer::IndexStats;
use docq::models::Collection;

fn col(name: &str, path: &str) -> Collection {
    Collection { name: name.into(), path: path.into() }
}

#[test]
fn select_collection_by_name() {
    let cols = vec![col("notes", "/n"), col("docs", "/d"), col("notes", "/n2")];
    let c = select_collection(&cols, "notes").unwrap();
    assert_eq!(c.path, "/n");
    assert_eq!(select_collection(&cols, "docs").unwrap().path, "/d");
}

#[test]
fn unknown_collection_is_a_store_error() {
    let e = select_collection(&vec![col("notes", "/n")], "nope").unwrap_err();
    assert_eq!(e.message(), "store error: collection not found: nope");
}

#[test]
fn ask_without_llm() {
    assert_eq!(llm_not_loaded().message(), "llm error: LLM not loaded — use open_for_ask");
}

#[test]
fn status_report() {
    let s = status_of(2, 5, vec![col("notes", "/n")]);
    assert_eq!((s.documents, s.chunks, s.collections.len()), (2, 5, 1));
}

#[test]
fn summary_line() {
    let s = IndexStats { files_indexed: 12, files_skipped: 0, files_removed: 1, chunks_indexed: 305 };
    assert_eq!(index_summary(&s), "Indexed 12 files (305 chunks, 0 skipped)");
}

#[test]
fn engine_config_keeps_its_parts() {
    let c = engine_config(PathBuf::from("/w"), PathBuf::from("/m"), 7u32, Verbose(true));
    assert_eq!(c.workspace_path, PathBuf::from("/w"));
    assert_eq!(c.model_cache_dir, PathBuf::from("/m"));
    assert_eq!(c.config, 7);
    assert!(c.verbose.enabled());
}
