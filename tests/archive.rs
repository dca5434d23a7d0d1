use std::io::{Cursor, Write};

use toolcraft::archive::{extract_text_from_docx, markup_text, take_run, Error, Run};
use toolcraft::extract::docx_to_json;
use toolcraft::schema::SchemaValue;

fn archive_with(name: &str, body: &str) -> Vec<u8> {
    let mut w = zip::ZipWriter::new(Cursor::new(Vec::new()));
    w.start_file(name, zip::write::SimpleFileOptions::default()).unwrap();
    w.write_all(body.as_bytes()).unwrap();
    w.finish().unwrap().into_inner()
}

const DOC: &str = r#"<?xml version="1.0"?><w:document xmlns:w="x"><w:body><w:p><w:r><w:t>Dear {{ user.name }},</w:t></w:r></w:p><w:p><w:r><w:t>{% for i in items %}</w:t></w:r><w:r><w:t>{{ i.price }}</w:t></w:r><w:r><w:t>{% endfor %}</w:t></w:r></w:p></w:body></w:document>"#;

#[test]
fn non_archive_input_is_a_format_error() {
    let r = docx_to_json(b"this is not a zip archive at all".to_vec());
    assert!(matches!(r, Err(Error::ArchiveFormatError(_))));
    assert!(matches!(extract_text_from_docx(Vec::new()), Err(Error::ArchiveFormatError(_))));
}

#[test]
fn archive_without_markup_entry_is_a_format_error() {
    let bytes = archive_with("other.xml", DOC);
    assert!(matches!(extract_text_from_docx(bytes), Err(Error::ArchiveFormatError(_))));
}

#[test]
fn text_runs_are_concatenated_in_order() {
    let bytes = archive_with("word/document.xml", DOC);
    let text = extract_text_from_docx(bytes).ok().unwrap();
    assert_eq!(text, "Dear {{ user.name }},{% for i in items %}{{ i.price }}{% endfor %}");
}

#[test]
fn document_schema_from_archive() {
    let bytes = archive_with("word/document.xml", DOC);
    match docx_to_json(bytes) {
        Ok(SchemaValue::Object(entries)) => {
            let keys: Vec<&str> = entries.iter().map(|(k, _)| k.as_str()).collect();
            assert_eq!(keys, vec!["user", "items"]);
        }
        other => panic!("unexpected {other:?}"),
    }
}

#[test]
fn malformed_markup_is_an_xml_error() {
    assert!(matches!(markup_text("<a><b></a>"), Err(Error::XmlParseError(_))));
    let bytes = archive_with("word/document.xml", "<a><b>x</c></a>");
    assert!(matches!(extract_text_from_docx(bytes), Err(Error::XmlParseError(_))));
}

#[test]
fn markup_text_keeps_run_content() {
    assert_eq!(markup_text("<p>  a </p><p>b</p>").ok().unwrap(), "  a b");
    assert_eq!(markup_text("").ok().unwrap(), "");
}

#[test]
fn runs_are_taken_in_order() {
    let mut text = String::from("a");
    assert!(take_run(&mut text, Run::Text("bc".to_string())));
    assert!(take_run(&mut text, Run::Markup));
    assert!(!take_run(&mut text, Run::End));
    assert_eq!(text, "abc");
}

fn stored_archive_with(name: &str, body: &[u8]) -> Vec<u8> {
    let mut w = zip::ZipWriter::new(Cursor::new(Vec::new()));
    let opts = zip::write::SimpleFileOptions::default().compression_method(zip::CompressionMethod::Stored);
    w.start_file(name, opts).unwrap();
    w.write_all(body).unwrap();
    w.finish().unwrap().into_inner()
}

#[test]
fn entity_references_are_decoded() {
    assert_eq!(markup_text("<t>AT&amp;T &#65;&#x42; &lt;x&gt;</t>").ok().unwrap(), "AT&T AB <x>");
    assert!(matches!(markup_text("<t>&nosuch;</t>"), Err(Error::EncodingError(_))));
}

#[test]
fn markup_that_is_not_utf8_is_an_encoding_error() {
    let bytes = stored_archive_with("word/document.xml", &[b'<', b'a', b'>', 0xff, 0xfe, b'<', b'/', b'a', b'>']);
    assert!(matches!(extract_text_from_docx(bytes), Err(Error::EncodingError(_))));
}

#[test]
fn corrupt_entry_is_a_format_error() {
    let mut bytes = stored_archive_with("word/document.xml", b"<w>PAYLOADPAYLOAD</w>");
    let at = bytes.windows(7).position(|w| w == b"PAYLOAD").unwrap();
    bytes[at] = b'X';
    assert!(matches!(extract_text_from_docx(bytes), Err(Error::ArchiveFormatError(_))));
}
