use docq::retriever::sanitize_fts5_query;

#[test]
fn test_sanitize_fts5_query_quotes_each_token() {
    assert_eq!(sanitize_fts5_query("Multi-Paxos"), "\"Multi-Paxos\"");
    assert_eq!(sanitize_fts5_query("hello world"), "\"hello\" \"world\"");
    assert_eq!(
        sanitize_fts5_query("a \"quoted\" term"),
        "\"a\" \"\"\"quoted\"\"\" \"term\""
    );
}

#[test]
fn sanitize_collapses_runs_of_whitespace() {
    assert_eq!(sanitize_fts5_query("  共识 \t 算法\n"), "\"共识\" \"算法\"");
}

#[test]
fn sanitize_blank_query_is_empty() {
    assert_eq!(sanitize_fts5_query(""), "");
    assert_eq!(sanitize_fts5_query("   "), "");
}

#[test]
fn sanitize_neutralises_query_syntax() {
    assert_eq!(sanitize_fts5_query("a:b (c) NOT d*"), "\"a:b\" \"(c)\" \"NOT\" \"d*\"");
}
