use std::io::Write;
use redrob_vectordb::extract::{
    display_name, docx_sections, extension, extract_sections, markup_sections, pdf_sections,
    source_format, xml_events, ExtractError, SourceFormat, XmlEvent,
};
use redrob_vectordb::indexing::{
    file_labels, hash_chunks, passage_input, prepare_document, query_input, IndexError,
};
use redrob_vectordb::models::ChunkInput;

#[test]
fn extensions_follow_path_rules_and_are_lowercased() {
    assert_eq!(extension("/docs/Report.PDF"), "pdf");
    assert_eq!(extension("/docs/archive.tar.gz"), "gz");
    assert_eq!(extension("/docs/.bashrc"), "");
    assert_eq!(extension("/docs/README"), "");
    assert_eq!(extension("/docs/trailing."), "");
    assert_eq!(extension("/"), "");
}

#[test]
fn display_names_fall_back_to_file() {
    assert_eq!(display_name("/docs/notes.md"), "notes.md");
    assert_eq!(display_name("/"), "file");
}

#[test]
fn file_types_choose_their_reader() {
    assert_eq!(source_format("pdf"), SourceFormat::Pdf);
    assert_eq!(source_format("docx"), SourceFormat::Docx);
    assert_eq!(source_format("htm"), SourceFormat::Markup);
    assert_eq!(source_format("xml"), SourceFormat::Markup);
    assert_eq!(source_format("md"), SourceFormat::Plain);
}

#[test]
fn pdf_text_is_split_into_numbered_non_empty_pages() {
    let sections = pdf_sections("page one\u{c} \u{c}page three");
    let pages: Vec<(Option<u32>, &str)> = sections.iter().map(|s| (s.page, s.text.as_str())).collect();
    assert_eq!(pages, vec![(Some(1), "page one"), (Some(3), "page three")]);
    let blank = pdf_sections(" \u{c} ");
    assert_eq!(blank.len(), 1);
    assert_eq!((blank[0].page, blank[0].text.as_str()), (Some(1), ""));
}

#[test]
fn word_paragraphs_are_joined_by_blank_lines() {
    let xml = "<w:document><w:body><w:p><w:r><w:t>Hello</w:t></w:r><w:r><w:t>world</w:t></w:r></w:p><w:p></w:p><w:p><w:r><w:t>Second</w:t></w:r></w:p></w:body></w:document>";
    let sections = docx_sections(xml).unwrap();
    assert_eq!(sections.len(), 1);
    assert_eq!(sections[0].text, "Hello world\n\nSecond");
    assert_eq!(sections[0].page, None);
}

#[test]
fn malformed_word_markup_is_an_error() {
    assert_eq!(
        docx_sections("<w:p>a</w:q>").unwrap_err(),
        ExtractError::XmlMalformed("ill-formed document: expected `</w:p>`, but `</w:q>` was found".into())
    );
}

#[test]
fn xml_events_end_with_eof() {
    let events = xml_events("<a>x</a>");
    assert!(matches!(events.last(), Some(XmlEvent::Eof)));
    assert!(events.iter().any(|e| matches!(e, XmlEvent::Text(t) if t == "x")));
}

#[test]
fn markup_text_runs_are_joined_and_bad_markup_falls_back_to_plain_text() {
    let html = "<html><body><h1> Title </h1><p>Body text</p></body></html>";
    let sections = markup_sections(html, html.as_bytes()).unwrap();
    assert_eq!(sections[0].text, "Title Body text");
    let broken = "<p>one</q> two";
    let sections = markup_sections(broken, broken.as_bytes()).unwrap();
    assert_eq!(sections[0].text, broken);
}

#[test]
fn extraction_reads_by_file_type() {
    let sections = extract_sections("/n/notes.txt", b"  line one \n\n line two ", None).unwrap();
    assert_eq!(sections[0].text, "line one\nline two");
    let sections = extract_sections("/n/page.html", b"<p>hi</p>", None).unwrap();
    assert_eq!(sections[0].text, "hi");
    assert_eq!(extract_sections("/n/page.html", &[0xff, 0xfe], None).unwrap_err(), ExtractError::NotUtf8);
    let archive = extract_sections("/n/doc.docx", b"not a zip", None).unwrap_err();
    assert!(matches!(&archive, ExtractError::ArchiveUnreadable(m) if m.starts_with("invalid Zip archive")), "{archive:?}");
    assert_eq!(extract_sections("/n/doc.pdf", b"not a pdf", None).unwrap_err(), ExtractError::PdfUnreadable);
    let lossy = extract_sections("/n/raw.log", &[b'o', b'k', 0xff], None).unwrap();
    assert_eq!(lossy[0].text, "ok\u{fffd}");
}

#[test]
fn word_documents_are_read_from_their_archive() {
    let mut buffer = std::io::Cursor::new(Vec::new());
    {
        let mut zip = zip::ZipWriter::new(&mut buffer);
        let options = zip::write::SimpleFileOptions::default()
            .compression_method(zip::CompressionMethod::Stored);
        zip.start_file("word/document.xml", options).unwrap();
        zip.write_all(b"<w:document><w:p><w:t>Inside</w:t></w:p></w:document>").unwrap();
        zip.finish().unwrap();
    }
    let sections = extract_sections("/n/doc.docx", buffer.get_ref(), None).unwrap();
    assert_eq!(sections[0].text, "Inside");
}

#[test]
fn fingerprint_is_sha256_of_the_passage_texts() {
    let chunk = |s: &str| ChunkInput { content: s.into(), page: None, heading: None };
    assert_eq!(
        hash_chunks(&vec![chunk("a"), chunk("bc")]),
        "ba7816bf8f01cfea414140de5dae2223b00361a396177a9cb410ff61f20015ad"
    );
    assert_eq!(
        hash_chunks(&vec![]),
        "e3b0c44298fc1c149afbf4c8996fb92427ae41e4649b934ca495991b7852b855"
    );
}

#[test]
fn documents_without_passages_are_refused() {
    assert_eq!(
        prepare_document("/n/tiny.txt", b"short", None, 1200, 180).unwrap_err(),
        IndexError::NoReadableText
    );
    let text = "A sentence that is certainly longer than twenty characters.";
    let doc = prepare_document("/n/Notes.MD", text.as_bytes(), None, 1200, 180).unwrap();
    assert_eq!(doc.name, "Notes.MD");
    assert_eq!(doc.extension, "md");
    assert_eq!(doc.mime_type, "text/markdown");
    assert_eq!(doc.chunks.len(), 1);
    assert_eq!(doc.content_hash.len(), 64);
}

#[test]
fn files_are_labelled_by_name_extension_and_media_type() {
    let labels = file_labels("/library/Notes/Plan.MD");
    assert_eq!(labels.name, "Plan.MD");
    assert_eq!(labels.extension, "md");
    assert_eq!(labels.mime_type, "text/markdown");
    let unnamed = file_labels("/");
    assert_eq!(unnamed.name, "file");
    assert_eq!(unnamed.extension, "");
    assert_eq!(unnamed.mime_type, "application/octet-stream");
}

#[test]
fn embedding_inputs_carry_their_markers() {
    assert_eq!(passage_input("Quarterly report"), "passage: Quarterly report");
    assert_eq!(query_input("revenue 2023"), "query: revenue 2023");
    assert_eq!(passage_input(""), "passage: ");
}

#[test]
fn failure_messages_name_an_unreadable_pdf_by_its_path() {
    let pdf = IndexError::Extract(ExtractError::PdfUnreadable);
    assert_eq!(pdf.message_for("/docs/a.pdf"), "could not read PDF /docs/a.pdf");
    let archive = IndexError::Extract(ExtractError::ArchiveUnreadable(
        "specified file not found in archive".into(),
    ));
    assert_eq!(archive.message_for("/docs/a.docx"), "specified file not found in archive");
    let markup = IndexError::Extract(ExtractError::XmlMalformed("syntax error: x".into()));
    assert_eq!(markup.message(), "syntax error: x");
    assert_eq!(IndexError::NoReadableText.message_for("/x.txt"), "no readable text was found");
}

#[test]
fn a_pdf_is_read_from_the_text_its_reader_gave() {
    let sections = extract_sections("/n/doc.pdf", b"%PDF-", Some("First page\u{c}\u{c}Third page")).unwrap();
    let pages: Vec<(Option<u32>, &str)> = sections.iter().map(|s| (s.page, s.text.as_str())).collect();
    assert_eq!(pages, vec![(Some(1), "First page"), (Some(3), "Third page")]);
    assert_eq!(extract_sections("/n/doc.pdf", b"%PDF-", None).unwrap_err(), ExtractError::PdfUnreadable);
    let text = extract_sections("/n/notes.txt", b"plain", Some("ignored")).unwrap();
    assert_eq!(text[0].text, "plain");
}

#[test]
fn a_word_archive_without_its_main_part_reports_the_archive_error() {
    let mut buffer = std::io::Cursor::new(Vec::new());
    {
        let mut zip = zip::ZipWriter::new(&mut buffer);
        let options = zip::write::SimpleFileOptions::default()
            .compression_method(zip::CompressionMethod::Stored);
        zip.start_file("other.xml", options).unwrap();
        zip.write_all(b"<x/>").unwrap();
        zip.finish().unwrap();
    }
    let error = extract_sections("/n/doc.docx", buffer.get_ref(), None).unwrap_err();
    assert_eq!(error, ExtractError::ArchiveUnreadable("specified file not found in archive".into()));
    assert_eq!(error.message(), "specified file not found in archive");
}
