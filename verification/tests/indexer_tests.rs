use docq::hashing::sha256_hex;
use docq::indexer::{
    classify, current_doc_ids, merge_all, pending_from_chunks, plan_flush, prepare_file, select_removed, Batcher, FileChange,
    IndexStats, PendingFile, EMBED_BATCH_SIZE,
};
use docq::models::{ChunkCandidate, Document, DocumentSource};
use docq::traits::{Chunker, WordSegmenter};

struct WholeText;

impl Chunker for WholeText {
    fn chunk(&self, text: &str) -> Vec<ChunkCandidate> {
        if text.trim().is_empty() {
            return Vec::new();
        }
        vec![ChunkCandidate { text: text.to_string(), byte_range: 0..text.len() }]
    }
}

struct ByLine;

impl Chunker for ByLine {
    fn chunk(&self, text: &str) -> Vec<ChunkCandidate> {
        let mut out = Vec::new();
        let mut start = 0;
        for line in text.split('\n') {
            if !line.is_empty() {
                out.push(ChunkCandidate { text: line.to_string(), byte_range: start..start + line.len() });
            }
            start += line.len() + 1;
        }
        out
    }
}

struct Upper;

impl WordSegmenter for Upper {
    fn segment(&self, text: &str) -> String {
        text.to_uppercase()
    }
}

fn stored(path: &str, content: &str) -> Document {
    Document {
        id: sha256_hex(path),
        file_path: path.to_string(),
        content_hash: sha256_hex(content),
        content_size: content.len(),
        indexed_at: "2024-01-01T00:00:00+00:00".to_string(),
    }
}

fn stats(fi: usize, fs: usize, fr: usize, ci: usize) -> IndexStats {
    IndexStats { files_indexed: fi, files_skipped: fs, files_removed: fr, chunks_indexed: ci }
}

#[test]
fn sha256_hex_is_64_lowercase_hex_chars() {
    let h = sha256_hex("hello world");
    assert_eq!(h, "b94d27b9934d3e08a52e52d7da7dabfac484efe37a5380ee9088f7ace2efcde9");
    assert_eq!(sha256_hex("").len(), 64);
    assert!(sha256_hex("x").chars().all(|c| c.is_ascii_hexdigit() && !c.is_ascii_uppercase()));
}

#[test]
fn merge_adds_counters() {
    let mut a = stats(1, 2, 3, 4);
    a.merge(&stats(10, 20, 30, 40));
    assert_eq!(a, stats(11, 22, 33, 44));
}

#[test]
fn merge_with_zero_is_identity() {
    let mut a = stats(5, 6, 7, 8);
    a.merge(&IndexStats::zero());
    assert_eq!(a, stats(5, 6, 7, 8));
    let mut z = IndexStats::default();
    z.merge(&stats(5, 6, 7, 8));
    assert_eq!(z, stats(5, 6, 7, 8));
}

#[test]
fn merge_commutes() {
    let mut ab = stats(1, 0, 2, 3);
    ab.merge(&stats(4, 5, 0, 6));
    let mut ba = stats(4, 5, 0, 6);
    ba.merge(&stats(1, 0, 2, 3));
    assert_eq!(ab, ba);
}

#[test]
fn merge_all_sums_every_run() {
    let total = merge_all(&vec![stats(1, 0, 0, 2), stats(2, 1, 1, 5), stats(0, 3, 0, 0)]);
    assert_eq!(total, stats(3, 4, 1, 7));
    assert_eq!(merge_all(&Vec::new()), IndexStats::zero());
}

#[test]
fn one_skipped_counts_a_single_file() {
    assert_eq!(IndexStats::one_skipped(), stats(0, 1, 0, 0));
}

#[test]
fn classify_new_changed_unchanged() {
    let docs = vec![stored("/d/a.txt", "hello world")];
    let id = sha256_hex("/d/a.txt");
    assert_eq!(classify(&docs, &id, &sha256_hex("hello world")), FileChange::Unchanged);
    assert_eq!(classify(&docs, &id, &sha256_hex("changed content")), FileChange::Changed);
    assert_eq!(classify(&docs, &sha256_hex("/d/b.txt"), &sha256_hex("hello world")), FileChange::New);
}

#[test]
fn classify_uses_the_latest_row() {
    let docs = vec![stored("/d/a.txt", "old"), stored("/d/a.txt", "new")];
    let id = sha256_hex("/d/a.txt");
    assert_eq!(classify(&docs, &id, &sha256_hex("new")), FileChange::Unchanged);
    assert_eq!(classify(&docs, &id, &sha256_hex("old")), FileChange::Changed);
}

#[test]
fn prepare_new_file() {
    let pf = prepare_file(&WholeText, &Upper, "/d/note.txt", "hello world", &Vec::new()).unwrap();
    assert_eq!(pf.path, "/d/note.txt");
    assert_eq!(pf.doc.id, sha256_hex("/d/note.txt"));
    assert_eq!(pf.doc.file_path, "/d/note.txt");
    assert_eq!(pf.doc.content_hash, sha256_hex("hello world"));
    assert_eq!(pf.doc.content_size, 11);
    assert!(!pf.doc.indexed_at.is_empty());
    assert!(!pf.is_update);
    assert_eq!(pf.chunks.len(), 1);
    assert_eq!(pf.chunks[0].id, sha256_hex("hello world"));
    assert_eq!(pf.chunks[0].doc_id, pf.doc.id);
    assert_eq!(pf.chunks[0].byte_range, 0..11);
    assert_eq!(pf.chunk_texts, vec!["hello world".to_string()]);
    assert_eq!(pf.tokenized_texts, vec!["HELLO WORLD".to_string()]);
}

#[test]
fn prepare_skips_unchanged_file() {
    let docs = vec![stored("/d/note.txt", "hello world")];
    assert!(prepare_file(&WholeText, &Upper, "/d/note.txt", "hello world", &docs).is_none());
}

#[test]
fn prepare_reindexes_changed_file() {
    let docs = vec![stored("/d/note.txt", "hello world")];
    let pf = prepare_file(&WholeText, &Upper, "/d/note.txt", "changed content", &docs).unwrap();
    assert!(pf.is_update);
    assert_eq!(pf.doc.content_hash, sha256_hex("changed content"));
    assert_eq!(pf.chunks.len(), 1);
}

#[test]
fn prepare_skips_file_without_chunks() {
    assert!(prepare_file(&WholeText, &Upper, "/d/empty.txt", "   ", &Vec::new()).is_none());
}

#[test]
fn prepared_then_stored_is_unchanged() {
    let pf = prepare_file(&ByLine, &Upper, "/d/x.md", "a\nbb\n", &Vec::new()).unwrap();
    let docs = vec![pf.doc.clone()];
    assert!(prepare_file(&ByLine, &Upper, "/d/x.md", "a\nbb\n", &docs).is_none());
}

#[test]
fn prepare_keeps_candidate_order_and_ranges() {
    let pf = prepare_file(&ByLine, &Upper, "/d/x.md", "one\ntwo\n\nthree", &Vec::new()).unwrap();
    let texts: Vec<&str> = pf.chunks.iter().map(|c| c.text.as_str()).collect();
    assert_eq!(texts, vec!["one", "two", "three"]);
    assert_eq!(pf.chunks[1].byte_range, 4..7);
    assert_eq!(pf.chunks[2].byte_range, 9..14);
    assert_eq!(pf.tokenized_texts, vec!["ONE", "TWO", "THREE"]);
}

#[test]
fn current_ids_hash_paths() {
    let sources = vec![
        DocumentSource { path: "/d/a.txt".into(), content: "x".into() },
        DocumentSource { path: "/d/b.txt".into(), content: "y".into() },
    ];
    assert_eq!(current_doc_ids(&sources), vec![sha256_hex("/d/a.txt"), sha256_hex("/d/b.txt")]);
}

#[test]
fn sweep_selects_vanished_files_under_the_directory() {
    let docs = vec![stored("/d/a.txt", "1"), stored("/d/b.txt", "2"), stored("/other/c.txt", "3")];
    let current = vec![sha256_hex("/d/b.txt")];
    assert_eq!(select_removed("/d", &current, &docs), vec![sha256_hex("/d/a.txt")]);
    assert!(select_removed("/d", &vec![sha256_hex("/d/a.txt"), sha256_hex("/d/b.txt")], &docs).is_empty());
    assert!(select_removed("/d", &current, &Vec::new()).is_empty());
}

fn pending(path: &str, n: usize, is_update: bool) -> PendingFile {
    let content: String = (0..n).map(|i| format!("line{i}\n")).collect();
    let mut pf = prepare_file(&ByLine, &Upper, path, &content, &Vec::new()).unwrap();
    pf.is_update = is_update;
    pf
}

#[test]
fn batcher_counts_skips_and_signals_full_batches() {
    let mut b = Batcher::new();
    assert!(!b.offer(None));
    assert_eq!(b.stats.files_skipped, 1);
    assert!(!b.offer(Some(pending("/d/a", 3, false))));
    assert_eq!(b.pending_chunks, 3);
    assert!(b.offer(Some(pending("/d/b", EMBED_BATCH_SIZE - 3, false))));
    let batch = b.take_batch();
    assert_eq!(batch.len(), 2);
    assert_eq!(b.pending_chunks, 0);
    assert!(b.pending.is_empty());
    b.record_flush(&stats(2, 0, 0, EMBED_BATCH_SIZE));
    b.record_removed(4);
    assert_eq!(b.stats, stats(2, 1, 4, EMBED_BATCH_SIZE));
}

#[test]
fn flush_plan_slices_embeddings_per_file() {
    let batch = vec![pending("/d/a", 2, false), pending("/d/b", 3, true), pending("/d/c", 1, false)];
    let plan = plan_flush(batch);
    assert_eq!(plan.texts, vec!["line0", "line1", "line0", "line1", "line2", "line0"]);
    assert_eq!(plan.writes.len(), 3);
    assert_eq!((plan.writes[0].first, plan.writes[0].count), (0, 2));
    assert_eq!((plan.writes[1].first, plan.writes[1].count), (2, 3));
    assert_eq!((plan.writes[2].first, plan.writes[2].count), (5, 1));
    assert!(!plan.writes[0].delete_old_chunks);
    assert!(plan.writes[1].delete_old_chunks);
    assert_eq!(plan.writes[1].path, "/d/b");
    assert_eq!(plan.writes[1].chunk_ids, vec![sha256_hex("line0"), sha256_hex("line1"), sha256_hex("line2")]);
    assert_eq!(plan.writes[1].tokenized_texts, vec!["LINE0", "LINE1", "LINE2"]);
    assert_eq!(plan.stats, stats(3, 0, 0, 6));
}

#[test]
fn flush_plan_of_empty_batch() {
    let plan = plan_flush(Vec::new());
    assert!(plan.texts.is_empty() && plan.writes.is_empty());
    assert_eq!(plan.stats, IndexStats::zero());
}

#[test]
fn pending_from_chunks_needs_a_chunk() {
    assert!(pending_from_chunks(&Upper, "a.txt", "", &Vec::new(), false).is_none());
    let cands = vec![
        ChunkCandidate { text: "one".into(), byte_range: 0..3 },
        ChunkCandidate { text: "two".into(), byte_range: 4..7 },
    ];
    let pf = pending_from_chunks(&Upper, "a.txt", "one\ntwo", &cands, true).unwrap();
    assert_eq!(pf.path, "a.txt");
    assert!(pf.is_update);
    assert_eq!(pf.doc.id, sha256_hex("a.txt"));
    assert_eq!(pf.doc.content_hash, sha256_hex("one\ntwo"));
    assert_eq!(pf.doc.content_size, 7);
    assert_eq!(pf.chunk_texts, vec!["one".to_string(), "two".to_string()]);
    assert_eq!(pf.tokenized_texts, vec!["ONE".to_string(), "TWO".to_string()]);
    assert_eq!(pf.chunks.len(), 2);
    assert_eq!(pf.chunks[1].byte_range, 4..7);
}
