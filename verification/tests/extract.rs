use local_search::extract::{
    analyze_bytes, analyze_file, extract_pdf_text, extract_text, extract_xml_text, file_type_for,
    file_type_of_path, index_text, join_character_data, pdf_text_outcome, ExtractError, FileType,
};
use local_search::index::Index;
use lopdf::content::{Content, Operation};
use lopdf::{Dictionary, Object, Stream};

fn name(text: &str) -> Object {
    Object::Name(text.as_bytes().to_vec())
}

fn one_page_pdf(text: &str) -> lopdf::Document {
    let mut pdf = lopdf::Document::with_version("1.5");
    let pages_id = pdf.new_object_id();
    let mut font = Dictionary::new();
    font.set("Type", name("Font"));
    font.set("Subtype", name("Type1"));
    font.set("BaseFont", name("Courier"));
    let font_id = pdf.add_object(font);
    let mut fonts = Dictionary::new();
    fonts.set("F1", font_id);
    let mut resources = Dictionary::new();
    resources.set("Font", fonts);
    let resources_id = pdf.add_object(resources);
    let content = Content {
        operations: vec![
            Operation::new("BT", vec![]),
            Operation::new("Tf", vec![name("F1"), Object::Integer(48)]),
            Operation::new("Td", vec![Object::Integer(100), Object::Integer(600)]),
            Operation::new("Tj", vec![Object::string_literal(text)]),
            Operation::new("ET", vec![]),
        ],
    };
    let content_id = pdf.add_object(Stream::new(Dictionary::new(), content.encode().unwrap()));
    let mut page = Dictionary::new();
    page.set("Type", name("Page"));
    page.set("Parent", pages_id);
    page.set("Contents", content_id);
    let page_id = pdf.add_object(page);
    let mut pages = Dictionary::new();
    pages.set("Type", name("Pages"));
    pages.set("Kids", vec![Object::Reference(page_id)]);
    pages.set("Count", Object::Integer(1));
    pages.set("Resources", resources_id);
    pages.set(
        "MediaBox",
        vec![Object::Integer(0), Object::Integer(0), Object::Integer(595), Object::Integer(842)],
    );
    pdf.objects.insert(pages_id, Object::Dictionary(pages));
    let mut catalog = Dictionary::new();
    catalog.set("Type", name("Catalog"));
    catalog.set("Pages", pages_id);
    let catalog_id = pdf.add_object(catalog);
    pdf.trailer.set("Root", catalog_id);
    pdf.trailer.set(
        "ID",
        vec![
            Object::string_literal("0123456789abcdef"),
            Object::string_literal("0123456789abcdef"),
        ],
    );
    pdf
}

fn pdf_bytes(text: &str) -> Vec<u8> {
    let mut pdf = one_page_pdf(text);
    let mut bytes = Vec::new();
    pdf.save_to(&mut bytes).unwrap();
    bytes
}

fn encrypted_pdf_bytes(text: &str) -> Vec<u8> {
    let mut pdf = one_page_pdf(text);
    let state = lopdf::EncryptionState::try_from(lopdf::EncryptionVersion::V1 {
        document: &pdf,
        owner_password: "owner",
        user_password: "secret",
        permissions: lopdf::Permissions::all(),
    })
    .unwrap();
    pdf.encrypt(&state).unwrap();
    let mut bytes = Vec::new();
    pdf.save_to(&mut bytes).unwrap();
    bytes
}

#[test]
fn from_str_knows_the_indexed_extensions() {
    assert_eq!(FileType::from_str("xml"), Ok(FileType::Xml));
    assert_eq!(FileType::from_str("xhtml"), Ok(FileType::Xml));
    assert_eq!(FileType::from_str("pdf"), Ok(FileType::Pdf));
}

#[test]
fn from_str_refuses_other_extensions() {
    assert_eq!(FileType::from_str("txt"), Err(ExtractError::Unsupported));
    assert_eq!(FileType::from_str(""), Err(ExtractError::Unsupported));
    assert_eq!(FileType::from_str("html"), Err(ExtractError::Unsupported));
    assert_eq!(FileType::from_str("xm"), Err(ExtractError::Unsupported));
    assert_eq!(FileType::from_str("xmll"), Err(ExtractError::Unsupported));
}

#[test]
fn from_str_matches_case_exactly() {
    assert_eq!(FileType::from_str("XML"), Err(ExtractError::Unsupported));
    assert_eq!(FileType::from_str("Pdf"), Err(ExtractError::Unsupported));
    assert_eq!(FileType::from_str("xHtml"), Err(ExtractError::Unsupported));
}

#[test]
fn file_type_for_a_missing_extension_is_unsupported() {
    assert_eq!(file_type_for(None), Err(ExtractError::Unsupported));
    assert_eq!(file_type_for(Some("pdf")), Ok(FileType::Pdf));
    assert_eq!(file_type_for(Some("doc")), Err(ExtractError::Unsupported));
}

#[test]
fn file_type_of_path_goes_by_the_extension() {
    assert_eq!(file_type_of_path("/docs/a.xml"), Ok(FileType::Xml));
    assert_eq!(file_type_of_path("/docs/page.xhtml"), Ok(FileType::Xml));
    assert_eq!(file_type_of_path("/docs/b.pdf"), Ok(FileType::Pdf));
    assert_eq!(file_type_of_path("/docs/archive.tar.pdf"), Ok(FileType::Pdf));
    assert_eq!(file_type_of_path("/docs/notes.txt"), Err(ExtractError::Unsupported));
    assert_eq!(file_type_of_path("/docs/README"), Err(ExtractError::Unsupported));
    assert_eq!(file_type_of_path("/docs/.xml"), Err(ExtractError::Unsupported));
    assert_eq!(file_type_of_path("/docs.xml/readme"), Err(ExtractError::Unsupported));
    assert_eq!(file_type_of_path("/docs/a.XML"), Err(ExtractError::Unsupported));
    assert_eq!(file_type_of_path("/docs/a.xml.txt"), Err(ExtractError::Unsupported));
    assert_eq!(file_type_of_path("/docs/a.pdf.xml.bak"), Err(ExtractError::Unsupported));
    assert_eq!(file_type_of_path("/docs/a.txt.xhtml"), Ok(FileType::Xml));
    assert_eq!(file_type_of_path("/docs/a.xml/"), Ok(FileType::Xml));
    assert_eq!(file_type_of_path("/docs/a.xml/b"), Err(ExtractError::Unsupported));
    assert_eq!(file_type_of_path(""), Err(ExtractError::Unsupported));
    assert_eq!(file_type_of_path("xml"), Err(ExtractError::Unsupported));
}

#[test]
fn a_file_is_indexed_by_its_last_extension_only() {
    assert_eq!(
        analyze_file("/docs/a.xml.txt", b"<r>text</r>").err(),
        Some(ExtractError::Unsupported)
    );
    let mut index = Index::new();
    assert_eq!(index.add_file("/docs/a.xml.txt", b"<r>text</r>"), Err(ExtractError::Unsupported));
    assert_eq!(index.add_file("/docs/a.pdf.xml", b"<r>text</r>"), Ok(()));
    assert_eq!(index.len(), 1);
    assert_eq!(index.get("/docs/a.pdf.xml").unwrap().count("text"), 1);
}

#[test]
fn from_str_compares_every_character() {
    assert_eq!(FileType::from_str("xm\u{142}"), Err(ExtractError::Unsupported));
    assert_eq!(FileType::from_str("pd\u{192}"), Err(ExtractError::Unsupported));
    assert_eq!(FileType::from_str("xml\u{0}"), Err(ExtractError::Unsupported));
    assert_eq!(FileType::from_str("pdg"), Err(ExtractError::Unsupported));
    assert_eq!(FileType::from_str("ydf"), Err(ExtractError::Unsupported));
}

#[test]
fn index_text_counts_the_text_it_is_given() {
    let (path, doc) = index_text("/docs/a.pdf", Ok(String::from("Cats and cats!"))).unwrap();
    assert_eq!(path, "/docs/a.pdf");
    assert_eq!(doc.count("cat"), 2);
    assert_eq!(doc.count("and"), 1);
    assert_eq!(doc.count("!"), 1);
    assert_eq!(doc.total_term_count(), 4);
    let (path, doc) = index_text("/docs/empty.xml", Ok(String::new())).unwrap();
    assert_eq!(path, "/docs/empty.xml");
    assert_eq!(doc.total_term_count(), 0);
}

#[test]
fn index_text_hands_an_error_on() {
    assert_eq!(
        index_text("/docs/a.pdf", Err(ExtractError::Encrypted)).err(),
        Some(ExtractError::Encrypted)
    );
    assert_eq!(
        index_text("/docs/a.pdf", Err(ExtractError::Corrupt)).err(),
        Some(ExtractError::Corrupt)
    );
    assert_eq!(
        index_text("/docs/a", Err(ExtractError::Unsupported)).err(),
        Some(ExtractError::Unsupported)
    );
}

#[test]
fn an_encrypted_pdf_is_refused_at_every_level() {
    let bytes = encrypted_pdf_bytes("Hello World!");
    assert_eq!(extract_text(FileType::Pdf, &bytes), Err(ExtractError::Encrypted));
    assert_eq!(
        analyze_bytes(FileType::Pdf, "/docs/secret.pdf", &bytes).err(),
        Some(ExtractError::Encrypted)
    );
    assert_eq!(analyze_file("/docs/secret.pdf", &bytes).err(), Some(ExtractError::Encrypted));
}

#[test]
fn join_character_data_puts_a_space_after_each_piece() {
    let events = vec![None, Some(String::from("the cat")), None, Some(String::from("sat")), None];
    assert_eq!(join_character_data(&events), "the cat sat ");
    assert_eq!(join_character_data(&Vec::new()), "");
    assert_eq!(join_character_data(&vec![None, None]), "");
    assert_eq!(join_character_data(&vec![Some(String::new())]), " ");
}

#[test]
fn xml_text_is_the_character_data_of_the_elements() {
    assert_eq!(extract_xml_text(b"<r>the cat sat</r>"), "the cat sat ");
    assert_eq!(extract_xml_text(b"<r><a>one</a><b>two</b></r>"), "one two ");
    assert_eq!(extract_xml_text(b"<r a=\"hidden\"><!-- no --><e/></r>"), "");
}

#[test]
fn xml_entities_are_read_as_their_characters() {
    assert_eq!(extract_xml_text(b"<r>fish &amp; chips</r>"), "fish & chips ");
}

#[test]
fn malformed_xml_keeps_what_was_read() {
    assert_eq!(extract_xml_text(b"<r>kept</r><r>"), "kept ");
    assert_eq!(extract_xml_text(b"<r>kept<a>more</b></r>"), "kept more ");
    assert_eq!(extract_xml_text(b"not xml at all"), "");
    assert_eq!(extract_xml_text(b""), "");
    assert_eq!(extract_xml_text(&[0xff, 0xfe, 0x00, 0x3c]), "");
}

#[test]
fn pdf_text_outcome_refuses_encrypted_documents() {
    assert_eq!(pdf_text_outcome(true, None), Err(ExtractError::Encrypted));
    assert_eq!(pdf_text_outcome(true, Some(String::from("text"))), Err(ExtractError::Encrypted));
    assert_eq!(pdf_text_outcome(false, None), Err(ExtractError::Corrupt));
    assert_eq!(pdf_text_outcome(false, Some(String::from("text"))), Ok(String::from("text")));
}

#[test]
fn pdf_text_is_the_text_of_its_pages() {
    let text = extract_pdf_text(&pdf_bytes("Hello World!")).unwrap();
    assert_eq!(text.trim(), "Hello World!");
}

#[test]
fn bytes_that_are_no_pdf_are_corrupt() {
    assert_eq!(extract_pdf_text(b"this is not a pdf"), Err(ExtractError::Corrupt));
    assert_eq!(extract_pdf_text(b""), Err(ExtractError::Corrupt));
    let mut cut = pdf_bytes("Hello World!");
    cut.truncate(40);
    assert_eq!(extract_pdf_text(&cut), Err(ExtractError::Corrupt));
}

#[test]
fn an_encrypted_pdf_gives_no_text() {
    let outcome = extract_pdf_text(&encrypted_pdf_bytes("Hello World!"));
    assert_eq!(outcome, Err(ExtractError::Encrypted));
}

#[test]
fn an_encrypted_pdf_adds_no_document_to_the_index() {
    let mut index = Index::new();
    let outcome = index.add_file("/docs/secret.pdf", &encrypted_pdf_bytes("Hello World!"));
    assert_eq!(outcome, Err(ExtractError::Encrypted));
    assert_eq!(index.len(), 0);
    assert!(!index.contains_path("/docs/secret.pdf"));
    let outcome = index.add_file("/docs/plain.xml", b"<r>the walk goes on</r>");
    assert_eq!(outcome, Ok(()));
    assert_eq!(index.len(), 1);
}

#[test]
fn extract_text_goes_by_the_kind() {
    assert_eq!(extract_text(FileType::Xml, b"<r>one</r>"), Ok(String::from("one ")));
    assert_eq!(extract_text(FileType::Pdf, b"<r>one</r>"), Err(ExtractError::Corrupt));
    assert_eq!(
        extract_text(FileType::Pdf, &pdf_bytes("two")).map(|t| t.trim().to_string()),
        Ok(String::from("two"))
    );
}

#[test]
fn analyze_bytes_counts_the_terms_of_the_text() {
    let (path, doc) = analyze_bytes(FileType::Xml, "/docs/a.xml", b"<r>the cat sat</r>").unwrap();
    assert_eq!(path, "/docs/a.xml");
    assert_eq!(doc.count("the"), 1);
    assert_eq!(doc.count("cat"), 1);
    assert_eq!(doc.count("sat"), 1);
    assert_eq!(doc.total_term_count(), 3);

    let (path, doc) = analyze_bytes(FileType::Pdf, "/docs/b.pdf", &pdf_bytes("Hello World!")).unwrap();
    assert_eq!(path, "/docs/b.pdf");
    assert_eq!(doc.count("hello"), 1);
    assert_eq!(doc.count("world"), 1);
    assert_eq!(doc.count("!"), 1);
    assert_eq!(doc.total_term_count(), 3);
}

#[test]
fn analyze_file_skips_what_is_not_indexed() {
    assert_eq!(analyze_file("/docs/notes.txt", b"<r>text</r>").err(), Some(ExtractError::Unsupported));
    assert_eq!(analyze_file("/docs/binary", b"\x00\x01").err(), Some(ExtractError::Unsupported));
    assert_eq!(analyze_file("/docs/broken.pdf", b"junk").err(), Some(ExtractError::Corrupt));
    let (path, doc) = analyze_file("/docs/a.xhtml", b"<p>cats</p>").unwrap();
    assert_eq!(path, "/docs/a.xhtml");
    assert_eq!(doc.count("cat"), 1);
}
