use docq::fusion::{dedup_ids, reciprocal_rank_fusion};
use docq::models::Chunk;
use docq::search::{assemble_hits, chunks_in_order, distinct_doc_ids, fetch_ids, is_blank_query};

fn chunk(id: &str, doc: &str, text: &str) -> Chunk {
    Chunk { id: id.into(), doc_id: doc.into(), text: text.into(), byte_range: 0..text.len() }
}

fn s(v: &[&str]) -> Vec<String> {
    v.iter().map(|x| x.to_string()).collect()
}

#[test]
fn blank_queries_are_not_searched() {
    assert!(is_blank_query(""));
    assert!(is_blank_query(" \t\n\u{3000}"));
    assert!(!is_blank_query(" 生日 "));
}

#[test]
fn dedup_keeps_first_occurrence() {
    assert_eq!(dedup_ids(&s(&["a", "b", "a", "c", "b"])), s(&["a", "b", "c"]));
    assert!(dedup_ids(&Vec::new()).is_empty());
}

#[test]
fn fetch_takes_the_top_of_the_fusion() {
    let fused = reciprocal_rank_fusion(&s(&["a", "b"]), &s(&["b", "c"]), 60).unwrap();
    assert_eq!(fetch_ids(&fused, 2), s(&["b", "a"]));
    assert_eq!(fetch_ids(&fused, 10), s(&["b", "a", "c"]));
    assert!(fetch_ids(&fused, 0).is_empty());
}

#[test]
fn rerank_inputs_follow_id_order_and_skip_missing() {
    let chunks = vec![chunk("c1", "d1", "one"), chunk("c2", "d2", "two")];
    let got = chunks_in_order(&s(&["c2", "zz", "c1"]), &chunks);
    let ids: Vec<&str> = got.iter().map(|c| c.id.as_str()).collect();
    assert_eq!(ids, vec!["c2", "c1"]);
}

#[test]
fn doc_ids_once_each() {
    let chunks = vec![chunk("c1", "d1", "a"), chunk("c2", "d2", "b"), chunk("c3", "d1", "c")];
    assert_eq!(distinct_doc_ids(&chunks), s(&["d1", "d2"]));
}

#[test]
fn hits_keep_order_limit_and_paths() {
    let chunks = vec![chunk("c1", "d1", "one"), chunk("c2", "d2", "two"), chunk("c3", "d3", "three")];
    let paths = vec![("d1".to_string(), "/x/a.txt".to_string()), ("d2".to_string(), "/x/b.txt".to_string())];
    let hits = assemble_hits(&s(&["c3", "missing", "c1", "c2"]), 3, &chunks, &paths);
    assert_eq!(hits.len(), 2);
    assert_eq!(hits[0].chunk.id, "c3");
    assert_eq!(hits[0].file_path, "");
    assert_eq!(hits[1].chunk.id, "c1");
    assert_eq!(hits[1].file_path, "/x/a.txt");
    assert!(assemble_hits(&s(&["c1"]), 0, &chunks, &paths).is_empty());
}
