use docq::chunker::SentenceSplitter;
use docq::traits::Chunker;
use tokenizers::models::wordlevel::WordLevelBuilder;
use tokenizers::pre_tokenizers::whitespace::Whitespace;
use tokenizers::Tokenizer;

fn test_tokenizer() -> Tokenizer {
    let mut vocab = std::collections::HashMap::new();
    vocab.insert("[UNK]".to_string(), 0u32);
    vocab.insert("[PAD]".to_string(), 1u32);
    for (i, c) in ("abcdefghijklmnopqrstuvwxyzABCDEFGHIJKLMNOPQRSTUVWXYZ0123456789").chars().enumerate() {
        vocab.insert(c.to_string(), (i + 2) as u32);
    }
    let model = WordLevelBuilder::new()
        .vocab(vocab.into_iter().collect())
        .unk_token("[UNK]".to_string())
        .build()
        .unwrap();
    let mut tok = Tokenizer::new(model);
    tok.with_pre_tokenizer(Some(Whitespace::default()));
    tok
}

#[test]
fn test_short_text_single_chunk() {
    let tok = test_tokenizer();
    let splitter = SentenceSplitter::new(tok, 100, 10);
    let text = "Hello world. This is a test.";
    let chunks = splitter.chunk(text);
    assert_eq!(chunks.len(), 1);
    assert_eq!(chunks[0].byte_range.start, 0);
    assert_eq!(chunks[0].byte_range.end, text.len());
    assert_eq!(chunks[0].text, text);
}

#[test]
fn test_multiple_sentences_multiple_chunks() {
    let tok = test_tokenizer();
    let splitter = SentenceSplitter::new(tok, 3, 1);
    let text = "Hello world. Foo bar. Baz qux.";
    let chunks = splitter.chunk(text);
    assert!(chunks.len() >= 2, "expected at least 2 chunks, got {}", chunks.len());
    for ch in &chunks {
        assert!(ch.byte_range.end > ch.byte_range.start);
        assert!(!ch.text.is_empty());
    }
}

#[test]
fn test_byte_ranges_cover_text() {
    let tok = test_tokenizer();
    let splitter = SentenceSplitter::new(tok, 5, 2);
    let text = "First sentence here. Second one too. Third is short.";
    let chunks = splitter.chunk(text);
    assert!(!chunks.is_empty());
    assert_eq!(chunks[0].byte_range.start, 0);
    for w in chunks.windows(2) {
        assert!(
            w[0].byte_range.end >= w[1].byte_range.start,
            "chunk end {} < next start {}",
            w[0].byte_range.end,
            w[1].byte_range.start
        );
    }
    let last = chunks.last().unwrap();
    assert!(last.byte_range.end <= text.len());
}

#[test]
fn test_chinese_punctuation_split() {
    let tok = test_tokenizer();
    let splitter = SentenceSplitter::new(tok, 100, 10);
    let text = "这是一个句子。这是另一个句子！还有第三个？";
    let chunks = splitter.chunk(text);
    assert_eq!(chunks.len(), 1, "with chunk_size=100 all 3 sentences fit in one chunk");
    assert_eq!(chunks[0].text, text);
}

#[test]
fn test_empty_text() {
    let tok = test_tokenizer();
    let splitter = SentenceSplitter::new(tok, 100, 10);
    let chunks = splitter.chunk("");
    assert!(chunks.is_empty());
}

#[test]
fn test_paragraph_split() {
    let tok = test_tokenizer();
    let splitter = SentenceSplitter::new(tok, 100, 10);
    let text = "Paragraph one here.\n\n\nParagraph two here.";
    let chunks = splitter.chunk(text);
    assert_eq!(chunks.len(), 1);
    assert!(chunks[0].text.contains("Paragraph one"));
    assert!(chunks[0].text.contains("Paragraph two"));
}

#[test]
fn test_overlap_between_chunks() {
    let tok = test_tokenizer();
    let splitter = SentenceSplitter::new(tok, 2, 1);
    let text = "alpha beta gamma delta epsilon zeta";
    let chunks = splitter.chunk(text);
    assert!(chunks.len() >= 2, "expected at least 2 chunks, got {}", chunks.len());
    if chunks.len() >= 2 {
        assert!(
            chunks[0].byte_range.end > chunks[1].byte_range.start,
            "expected overlap: first.end={} > second.start={}",
            chunks[0].byte_range.end,
            chunks[1].byte_range.start
        );
    }
}

#[test]
fn blank_text_gives_no_chunk() {
    let splitter = SentenceSplitter::new(test_tokenizer(), 10, 2);
    assert!(splitter.chunk(" \n\t ").is_empty());
}

#[test]
fn chunk_ranges_stay_within_text_and_start_at_zero() {
    let splitter = SentenceSplitter::new(test_tokenizer(), 4, 1);
    let text = "One two three. Four five six seven. Eight nine.\n\nTen eleven.";
    let chunks = splitter.chunk(text);
    assert!(!chunks.is_empty());
    assert_eq!(chunks[0].byte_range.start, 0);
    for c in &chunks {
        assert!(c.byte_range.start <= c.byte_range.end);
        assert!(c.byte_range.end <= text.len());
        assert_eq!(c.byte_range.end - c.byte_range.start, c.text.len());
    }
}

#[test]
fn non_blank_text_always_gives_a_chunk() {
    for (size, text) in [(1, " x "), (0, "a"), (3, "\n\n\n\n  word\n\n\n"), (2, "。！？"), (1, "supercalifragilistic")] {
        let splitter = SentenceSplitter::new(test_tokenizer(), size, 0);
        assert!(!splitter.chunk(text).is_empty(), "no chunk for {text:?} at size {size}");
    }
}

#[test]
fn chunk_text_is_the_text_at_its_byte_range() {
    let splitter = SentenceSplitter::new(test_tokenizer(), 2, 1);
    let text = "alpha beta gamma delta epsilon zeta";
    let chunks = splitter.chunk(text);
    assert!(chunks.len() >= 2);
    assert!(chunks[0].byte_range.end > chunks[1].byte_range.start);
    assert_eq!(chunks[0].text, "alpha beta");
    assert_eq!(chunks[0].byte_range, 0..10);
    for c in &chunks {
        assert_eq!(&text[c.byte_range.clone()], c.text);
        assert!(!c.text.is_empty());
    }
}

#[test]
fn chunk_ranges_locate_multibyte_text() {
    let splitter = SentenceSplitter::new(test_tokenizer(), 3, 0);
    let text = "  Grüße aus Köln. Ünïcödé wörds hère. 这是句子。";
    let chunks = splitter.chunk(text);
    assert!(!chunks.is_empty());
    for w in chunks.windows(2) {
        assert!(w[0].byte_range.start <= w[1].byte_range.start);
        assert!(w[0].byte_range.end <= w[1].byte_range.end);
    }
    for c in &chunks {
        assert_eq!(&text[c.byte_range.clone()], c.text);
    }
}
