use docq::fusion::{compare_scores, reciprocal_rank_fusion, try_reciprocal_rank_fusion, RrfScore};

fn ids(v: &[&str]) -> Vec<String> {
    v.iter().map(|s| s.to_string()).collect()
}

fn value(s: &RrfScore) -> f64 {
    s.num as f64 / s.den as f64
}

#[test]
fn test_rrf_basic() {
    let bm25 = ids(&["a", "b"]);
    let vector = ids(&["b", "c"]);
    let result = reciprocal_rank_fusion(&bm25, &vector, 60).unwrap();

    let names: Vec<&str> = result.iter().map(|(id, _)| id.as_str()).collect();
    assert_eq!(names[0], "b");
    assert!(result.len() == 3);
}

#[test]
fn test_rrf_single_channel() {
    let bm25 = ids(&["a", "b"]);
    let result = reciprocal_rank_fusion(&bm25, &Vec::new(), 60).unwrap();
    assert_eq!(result.len(), 2);
    assert_eq!(result[0].0, "a");
}

#[test]
fn test_rrf_empty() {
    let result = reciprocal_rank_fusion(&Vec::new(), &Vec::new(), 60).unwrap();
    assert!(result.is_empty());
}

#[test]
fn test_rrf_score_ordering() {
    let bm25 = ids(&["x", "y"]);
    let vector = ids(&["x", "z"]);
    let result = reciprocal_rank_fusion(&bm25, &vector, 60).unwrap();
    for w in result.windows(2) {
        assert!(compare_scores(w[0].1, w[1].1) >= 0);
        assert!(value(&w[0].1) >= value(&w[1].1));
    }
}

#[test]
fn rrf_exact_scores() {
    // b: 1/62 + 1/61 = 123/3782; a: 1/61; c: 1/62.
    let result = reciprocal_rank_fusion(&ids(&["a", "b"]), &ids(&["b", "c"]), 60).unwrap();
    assert_eq!(result[0].0, "b");
    assert_eq!((result[0].1.num, result[0].1.den), (123, 3782));
    assert_eq!(result[1].0, "a");
    assert_eq!((result[1].1.num, result[1].1.den), (1, 61));
    assert_eq!(result[2].0, "c");
    assert_eq!((result[2].1.num, result[2].1.den), (1, 62));
}

#[test]
fn rrf_is_symmetric_in_its_channels() {
    let a = reciprocal_rank_fusion(&ids(&["p", "q", "r"]), &ids(&["r", "s"]), 10).unwrap();
    let b = reciprocal_rank_fusion(&ids(&["r", "s"]), &ids(&["p", "q", "r"]), 10).unwrap();
    for (id, sc) in &a {
        let other = b.iter().find(|(j, _)| j == id).unwrap();
        assert_eq!(compare_scores(*sc, other.1), 0);
    }
}

#[test]
fn rrf_equal_scores_keep_lexical_first() {
    // "a" (lexical rank 1) and "c" (vector rank 1) tie; "a" comes first.
    let result = reciprocal_rank_fusion(&ids(&["a"]), &ids(&["c"]), 60).unwrap();
    assert_eq!(result[0].0, "a");
    assert_eq!(result[1].0, "c");
    assert_eq!(compare_scores(result[0].1, result[1].1), 0);
}

#[test]
fn rrf_consensus_outranks_single_channel() {
    let result = reciprocal_rank_fusion(&ids(&["solo", "both"]), &ids(&["both"]), 60).unwrap();
    assert_eq!(result[0].0, "both");
}

#[test]
fn rrf_repeated_ids_add_every_occurrence() {
    // a: 1/61 + 1/63 = 124/3843, b: 1/62.
    let result = reciprocal_rank_fusion(&ids(&["a", "b", "a"]), &Vec::new(), 60).unwrap();
    assert_eq!(result.len(), 2);
    assert_eq!(result[0].0, "a");
    assert_eq!((result[0].1.num, result[0].1.den), (124, 3843));
    assert_eq!(result[1].0, "b");
    assert_eq!((result[1].1.num, result[1].1.den), (1, 62));
}

#[test]
fn rrf_repeats_can_outrank_consensus() {
    let result = reciprocal_rank_fusion(&ids(&["s", "b", "s", "s"]), &ids(&["b"]), 60).unwrap();
    assert_eq!(result[0].0, "s");
    assert_eq!(result[1].0, "b");
}

#[test]
fn rrf_try_reports_scores_too_large() {
    // One id repeated 40 times: the exact denominator needs far more than 128 bits.
    let many: Vec<String> = (0..40).map(|_| "x".to_string()).collect();
    assert!(try_reciprocal_rank_fusion(&many, &Vec::new(), 60).is_none());
    assert!(try_reciprocal_rank_fusion(&ids(&["x", "y"]), &ids(&["y"]), 60).is_some());
}

#[test]
fn rrf_refuses_lists_whose_exact_sums_overflow() {
    // "x" repeated 40 times: its exact sum does not fit, and no occurrence
    // is dropped to make it fit.
    let mut many: Vec<String> = (0..40).map(|_| "x".to_string()).collect();
    many.push("y".to_string());
    let e = reciprocal_rank_fusion(&many, &ids(&["y"]), 60).unwrap_err();
    assert_eq!(e.message(), "retrieve error: fused score too large to represent exactly");
    let e2 = reciprocal_rank_fusion(&ids(&["y"]), &many, 60).unwrap_err();
    assert_eq!(e2.message(), e.message());
}

#[test]
fn rrf_swapping_channels_keeps_every_score() {
    let a = reciprocal_rank_fusion(&ids(&["p", "q", "r"]), &ids(&["s", "p"]), 10).unwrap();
    let b = reciprocal_rank_fusion(&ids(&["s", "p"]), &ids(&["p", "q", "r"]), 10).unwrap();
    let mut ma: Vec<(String, f64)> = a.iter().map(|(id, s)| (id.clone(), value(s))).collect();
    let mut mb: Vec<(String, f64)> = b.iter().map(|(id, s)| (id.clone(), value(s))).collect();
    ma.sort_by(|x, y| x.0.cmp(&y.0));
    mb.sort_by(|x, y| x.0.cmp(&y.0));
    assert_eq!(ma, mb);
    assert_eq!(ma.len(), 4);
}
