use docq::reader::{DocxReader, TextReader};

#[test]
fn default_extensions() {
    let r = TextReader::new();
    assert!(r.has_valid_extension("/tmp/a.txt"));
    assert!(r.has_valid_extension("b.md"));
    assert!(!r.has_valid_extension("c.bin"));
    assert!(!r.has_valid_extension("README"));
    assert!(!r.has_valid_extension(".txt"));
    assert!(!r.has_valid_extension("x.TXT"));
}

#[test]
fn custom_extensions() {
    let r = TextReader::with_extensions(&["rst"]);
    assert!(r.has_valid_extension("doc.rst"));
    assert!(!r.has_valid_extension("doc.txt"));
}

#[test]
fn ignores_hidden_and_build_directories() {
    let r = TextReader::new();
    assert!(r.is_ignored("/w/.hidden.txt"));
    assert!(r.is_ignored("/w/.git"));
    assert!(r.is_ignored("/w/target"));
    assert!(r.is_ignored("/w/node_modules"));
    assert!(!r.is_ignored("/w/visible.txt"));
    assert!(!r.is_ignored("/w/sub"));
}

#[test]
fn docx_reader_extensions() {
    assert_eq!(DocxReader::new().extensions(), vec!["docx".to_string()]);
}
