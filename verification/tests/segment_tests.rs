use docq::segment::{jieba_tokenize, join_terms, JiebaSegmenter};
use docq::traits::WordSegmenter;

fn owned(v: &[&str]) -> Vec<String> {
    v.iter().map(|s| s.to_string()).collect()
}

#[test]
fn join_terms_drops_blank_words_and_joins_with_single_spaces() {
    assert_eq!(join_terms(&owned(&["a", " ", "b", "", "\t\n", "c"])), "a b c");
    assert_eq!(join_terms(&owned(&[" ", "\u{3000}"])), "");
    assert_eq!(join_terms(&Vec::new()), "");
    assert_eq!(join_terms(&owned(&["生日"])), "生日");
}

#[test]
fn jieba_cuts_chinese_into_words() {
    let s = JiebaSegmenter::new();
    assert_eq!(s.segment_text("我来到北京清华大学"), "我 来到 北京 清华大学");
    assert_eq!(s.segment("我来到北京清华大学"), "我 来到 北京 清华大学");
}

#[test]
fn segmentation_leaves_no_blank_terms() {
    let s = JiebaSegmenter::new();
    let out = s.segment_text("  hello   world\n\n 你好 ");
    assert!(!out.starts_with(' ') && !out.ends_with(' ') && !out.contains("  "));
    assert!(out.contains("hello") && out.contains("world"));
    assert_eq!(jieba_tokenize("  hello   world\n\n 你好 "), out);
    assert_eq!(s.segment_text(" \t "), "");
}
