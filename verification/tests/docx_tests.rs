use docq::docx::{docx_text, extract_text, read_xml_events, text_of_events, XmlEvent};
use docq::error::DocqError;
use docq::reader::DocxReader;
use std::io::{Cursor, Write};

fn docx_bytes_with_xml(xml: &str) -> Vec<u8> {
    let mut buf = Vec::new();
    {
        let mut zip = zip::ZipWriter::new(Cursor::new(&mut buf));
        let options =
            zip::write::SimpleFileOptions::default().compression_method(zip::CompressionMethod::Stored);
        zip.start_file("word/document.xml", options).unwrap();
        zip.write_all(xml.as_bytes()).unwrap();
        zip.finish().unwrap();
    }
    buf
}

fn docx_bytes_with_text(text: &str) -> Vec<u8> {
    let xml = format!(
        r#"<?xml version="1.0" encoding="UTF-8" standalone="yes"?>
<w:document xmlns:w="http://schemas.openxmlformats.org/wordprocessingml/2006/main">
  <w:body>
    <w:p>
      <w:r>
        <w:t>{}</w:t>
      </w:r>
    </w:p>
  </w:body>
</w:document>"#,
        quick_xml::escape::escape(text)
    );
    docx_bytes_with_xml(&xml)
}

#[test]
fn test_docx_reader_extracts_text() {
    let bytes = docx_bytes_with_text("Hello DOCX");
    let doc = DocxReader::new().read_bytes("sample.docx", &bytes).unwrap().unwrap();
    assert_eq!(doc.content, "Hello DOCX");
    assert_eq!(doc.path, "sample.docx");
}

#[test]
fn test_docx_reader_skips_empty_text() {
    let bytes = docx_bytes_with_text("");
    let doc = DocxReader::new().read_bytes("empty.docx", &bytes).unwrap();
    assert!(doc.is_none());
}

#[test]
fn docx_entities_and_runs() {
    let xml = "<w:document><w:p><w:r><w:t>a &amp; b &#x41;</w:t></w:r><w:r><w:t>c</w:t></w:r></w:p>\
               <w:t>x</w:t>outside</w:document>";
    assert_eq!(extract_text(xml).unwrap(), "a & b Acx");
}

#[test]
fn docx_tab_and_break_start_tags() {
    let xml = "<w:r><w:t>one</w:t><w:tab></w:tab><w:t>two</w:t><w:br></w:br><w:t>three</w:t></w:r>";
    assert_eq!(extract_text(xml).unwrap(), "one\ttwo\nthree");
}

#[test]
fn docx_unknown_entity_is_an_error() {
    let e = extract_text("<w:t>&nbsp;</w:t>").unwrap_err();
    assert!(matches!(e, DocqError::Parse(_)));
    assert!(e.message().starts_with("parse error: unescape docx text: "));
}

#[test]
fn docx_malformed_xml_is_a_parse_error() {
    let e = extract_text("<w:t>a</w:x>").unwrap_err();
    assert!(e.message().starts_with("parse error: parse document.xml: "));
}

#[test]
fn docx_not_an_archive() {
    let e = DocxReader::new().read_bytes("bad.docx", b"not a zip").unwrap_err();
    assert!(e.message().starts_with("parse error: open docx bad.docx: "));
}

#[test]
fn docx_missing_document_entry() {
    let mut buf = Vec::new();
    {
        let mut zip = zip::ZipWriter::new(Cursor::new(&mut buf));
        let options =
            zip::write::SimpleFileOptions::default().compression_method(zip::CompressionMethod::Stored);
        zip.start_file("other.xml", options).unwrap();
        zip.write_all(b"<x/>").unwrap();
        zip.finish().unwrap();
    }
    let e = DocxReader::new().read_bytes("n.docx", &buf).unwrap_err();
    assert!(e.message().starts_with("parse error: document.xml missing in n.docx: "));
}

#[test]
fn docx_text_from_given_events() {
    let evs = vec![
        XmlEvent::Text("ignored".into()),
        XmlEvent::Start("w:t".into()),
        XmlEvent::Text("Hi".into()),
        XmlEvent::Reference("quot".into()),
        XmlEvent::End("w:t".into()),
        XmlEvent::Start("w:br".into()),
        XmlEvent::Other,
        XmlEvent::Text("after".into()),
    ];
    assert_eq!(docx_text(&evs).unwrap(), "Hi\"\n");
    let e = text_of_events(&evs, Some("boom".into())).unwrap_err();
    assert_eq!(e.message(), "parse error: parse document.xml: boom");
}

#[test]
fn xml_events_are_read_in_order_up_to_the_end() {
    let (evs, err) = read_xml_events("<w:t>a</w:t>");
    assert!(err.is_none());
    assert_eq!(evs.len(), 3);
    assert!(matches!(&evs[0], XmlEvent::Start(n) if n == "w:t"));
    assert!(matches!(&evs[1], XmlEvent::Text(t) if t == "a"));
    assert!(matches!(&evs[2], XmlEvent::End(n) if n == "w:t"));
    let (evs, err) = read_xml_events("<a></b>");
    assert!(err.is_some());
    assert!(matches!(&evs[0], XmlEvent::Start(n) if n == "a"));
    assert!(read_xml_events("").0.is_empty());
}

#[test]
fn docx_reader_reports_malformed_document_xml() {
    let bytes = docx_bytes_with_xml("<w:t>a</w:x>");
    let e = DocxReader::new().read_bytes("m.docx", &bytes).unwrap_err();
    assert!(e.message().starts_with("parse error: parse document.xml: "));
}

#[test]
fn docx_reader_keeps_the_document_text_only() {
    let mut buf = Vec::new();
    {
        let mut zip = zip::ZipWriter::new(Cursor::new(&mut buf));
        let options =
            zip::write::SimpleFileOptions::default().compression_method(zip::CompressionMethod::Stored);
        zip.start_file("word/footer1.xml", options).unwrap();
        zip.write_all(b"<w:t>footer</w:t>").unwrap();
        zip.start_file("word/document.xml", options).unwrap();
        zip.write_all(b"<w:t>body</w:t><w:t>   </w:t>").unwrap();
        zip.finish().unwrap();
    }
    let doc = DocxReader::new().read_bytes("f.docx", &buf).unwrap().unwrap();
    assert_eq!(doc.content, "body   ");
    let blank = docx_bytes_with_xml("<w:t> \t </w:t>");
    assert!(DocxReader::new().read_bytes("b.docx", &blank).unwrap().is_none());
}

#[test]
fn docx_character_references_resolve_by_code_point() {
    assert_eq!(extract_text("<w:t>&#65;&#x42;&#x63;&#x4e2d;</w:t>").unwrap(), "ABc中");
    assert!(extract_text("<w:t>&#0;</w:t>").is_err());
    assert!(extract_text("<w:t>&#xD800;</w:t>").is_err());
    assert!(extract_text("<w:t>&#X41;</w:t>").is_err());
    assert!(extract_text("<w:t>&#;</w:t>").is_err());
}
