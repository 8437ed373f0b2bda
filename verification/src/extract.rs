//! Turning the bytes of a file into plain text, by the kind of file.

use crate::document::Document;
use crate::text::str_eq;
use crate::tokenizer::{create_document_from_text, terms};
use vstd::multiset::Multiset;
use vstd::prelude::*;
use vstd::string::*;

verus! {

/// Why a file gave no text.
#[derive(Clone, Copy, Debug, PartialEq, Eq, Structural)]
pub enum ExtractError {
    /// The file has no extension, or one that is not indexed.
    Unsupported,
    /// The file is a PDF that reports itself encrypted.
    Encrypted,
    /// The file could not be read as what its extension says it is.
    Corrupt,
}

/// The kinds of file that are indexed.
#[derive(Clone, Copy, Debug, PartialEq, Eq, Structural)]
pub enum FileType {
    Xml,
    Pdf,
}

/// The kind of file that an extension stands for. The match is exact: case
/// counts.
pub open spec fn file_type_of(extension: Seq<char>) -> Option<FileType> {
    if extension == "xml"@ || extension == "xhtml"@ {
        Some(FileType::Xml)
    } else if extension == "pdf"@ {
        Some(FileType::Pdf)
    } else {
        None
    }
}

impl FileType {
    /// The kind of file for an extension, written without its dot: `xml` and
    /// `xhtml` are XML, `pdf` is PDF, and nothing else is indexed.
    pub fn from_str(s: &str) -> (r: Result<FileType, ExtractError>)
        ensures
            match r {
                Ok(kind) => file_type_of(s@) == Some(kind),
                Err(e) => file_type_of(s@) is None && e == ExtractError::Unsupported,
            },
    {
        proof {
            reveal_strlit("xml");
            reveal_strlit("xhtml");
            reveal_strlit("pdf");
        }
        if str_eq(s, "xml") || str_eq(s, "xhtml") {
            Ok(FileType::Xml)
        } else if str_eq(s, "pdf") {
            Ok(FileType::Pdf)
        } else {
            Err(ExtractError::Unsupported)
        }
    }
}

/// Whether `extension` stands in `path` right after a dot and holds no dot
/// itself.
pub open spec fn follows_dot_in(path: Seq<char>, extension: Seq<char>) -> bool {
    &&& !extension.contains('.')
    &&& exists|i: int|
        0 < i && i + extension.len() <= path.len() && path[i - 1] == '.' && #[trigger] path.subrange(
            i,
            i + extension.len(),
        ) == extension
}

/// What `std::path::Path::extension` gives for a path: the part of the
/// path's file name after its last dot. Where the path has no file name, or
/// the file name has no dot but perhaps a first one, it gives none.
pub uninterp spec fn extension_of(path: Seq<char>) -> Option<Seq<char>>;

/// The kind of file that a path names: that of its extension.
pub open spec fn kind_of_path(path: Seq<char>) -> Option<FileType> {
    match extension_of(path) {
        Some(extension) => file_type_of(extension),
        None => None,
    }
}

/// Calls `std::path::Path::extension`. The extension depends on the path
/// alone, so it is named rather than spelled out: where the file name begins
/// and ends is the platform's matter. Of an extension that is found, it is
/// claimed besides that it stands in the path right after a dot and holds no
/// dot itself.
#[verifier::external_body]
fn path_extension(path: &str) -> (extension: Option<String>)
    ensures
        extension matches Some(e) ==> follows_dot_in(path@, e@),
        match extension {
            Some(e) => extension_of(path@) == Some(e@),
            None => extension_of(path@) is None,
        },
{
    std::path::Path::new(path).extension().and_then(|e| e.to_str()).map(|e| e.to_owned())
}

/// The kind of file for an extension that may be missing: a file without an
/// extension is not indexed.
pub fn file_type_for(extension: Option<&str>) -> (r: Result<FileType, ExtractError>)
    ensures
        match r {
            Ok(kind) => extension matches Some(e) && file_type_of(e@) == Some(kind),
            Err(e) => e == ExtractError::Unsupported && (extension matches Some(ext) ==> (
            file_type_of(ext@) is None)),
        },
{
    match extension {
        None => Err(ExtractError::Unsupported),
        Some(e) => FileType::from_str(e),
    }
}

/// The kind of file that a path names, by its extension. A path without an
/// extension, or with one that is not indexed, is `Unsupported`; a path
/// without a dot has no extension.
pub fn file_type_of_path(path: &str) -> (r: Result<FileType, ExtractError>)
    ensures
        r == (match kind_of_path(path@) {
            Some(kind) => Ok::<FileType, ExtractError>(kind),
            None => Err::<FileType, ExtractError>(ExtractError::Unsupported),
        }),
        !path@.contains('.') ==> kind_of_path(path@) is None,
{
    match path_extension(path) {
        None => Err(ExtractError::Unsupported),
        Some(extension) => {
            proof {
                let i = choose|i: int|
                    0 < i && i + extension@.len() <= path@.len() && path@[i - 1] == '.'
                        && #[trigger] path@.subrange(i, i + extension@.len()) == extension@;
                assert(path@[i - 1] == '.');
            }
            file_type_for(Some(extension.as_str()))
        },
    }
}

/// What `xml::EventReader` reports for a document, event by event: the text
/// of a character-data event, and `None` for any other event and for an
/// error. The reader stops after the end of the document or its first error.
pub uninterp spec fn xml_events(bytes: Seq<u8>) -> Seq<Option<Seq<char>>>;

/// Runs `xml::EventReader::new` over the bytes and walks the events it
/// yields, keeping the text of each `XmlEvent::Characters`. The events depend
/// on the bytes alone, so their list is named rather than spelled out.
#[verifier::external_body]
fn read_xml_events(bytes: &[u8]) -> (events: Vec<Option<String>>)
    ensures
        events.deep_view() == xml_events(bytes@),
{
    xml::EventReader::new(bytes).into_iter().map(
        |event| match event {
            Ok(xml::reader::XmlEvent::Characters(text)) => Some(text),
            Ok(_) => None,
            Err(_) => None,
        },
    ).collect()
}

/// The text of a list of events: each piece of character data followed by one
/// space, in order.
pub open spec fn joined_text(events: Seq<Option<Seq<char>>>) -> Seq<char>
    decreases events.len(),
{
    if events.len() == 0 {
        Seq::empty()
    } else {
        match events.last() {
            Some(text) => joined_text(events.drop_last()) + text + seq![' '],
            None => joined_text(events.drop_last()),
        }
    }
}

/// Joins the character data of a list of events, a space after each piece.
pub fn join_character_data(events: &Vec<Option<String>>) -> (text: String)
    ensures
        text@ == joined_text(events.deep_view()),
{
    let mut text = String::new();
    let mut i: usize = 0;
    while i < events.len()
        invariant
            i <= events.len(),
            text@ == joined_text(events.deep_view().take(i as int)),
        decreases events.len() - i,
    {
        proof {
            let view = events.deep_view();
            assert(view.take(i + 1).drop_last() =~= view.take(i as int));
            assert(view.take(i + 1).last() == view[i as int]);
            assert(view[i as int] == events[i as int].deep_view());
        }
        match &events[i] {
            Some(piece) => {
                text.append(piece.as_str());
                text.append(" ");
                proof {
                    reveal_strlit(" ");
                    assert(" "@ =~= seq![' ']);
                }
            },
            None => {},
        }
        i = i + 1;
    }
    proof {
        assert(events.deep_view().take(events.len() as int) =~= events.deep_view());
    }
    text
}

/// The terms of an XML document, each as often as it occurs: those of its
/// text.
pub open spec fn xml_terms(bytes: Seq<u8>) -> Multiset<Seq<char>> {
    terms(joined_text(xml_events(bytes))).to_multiset()
}

/// The text of an XML document: the character data of its elements, a space
/// after each piece. What the parser cannot read is left out.
pub fn extract_xml_text(bytes: &[u8]) -> (text: String)
    ensures
        text@ == joined_text(xml_events(bytes@)),
{
    let events = read_xml_events(bytes);
    join_character_data(&events)
}

/// A PDF document as `lopdf` holds it after parsing. Nothing inside it is
/// visible to the verifier; it is only handed from one call to the next.
#[verifier::external_body]
struct PdfFile {
    inner: lopdf::Document,
}

/// Whether `lopdf::Document::load_mem` reads the bytes as a PDF document.
pub uninterp spec fn pdf_loads(bytes: Seq<u8>) -> bool;

/// Whether the PDF document that `lopdf::Document::load_mem` reads from the
/// bytes reports itself encrypted, as `lopdf::Document::is_encrypted` tells.
pub uninterp spec fn pdf_encrypted(bytes: Seq<u8>) -> bool;

/// Calls `lopdf::Document::load_mem`, which parses a PDF document from
/// memory, and `lopdf::Document::is_encrypted` on the document, which tells
/// whether its trailer refers to an encryption dictionary. Both answers
/// depend on the bytes alone, so they are named rather than spelled out;
/// nothing else is claimed of the document.
#[verifier::external_body]
fn parse_pdf(bytes: &[u8]) -> (found: Option<(PdfFile, bool)>)
    ensures
        found is Some <==> pdf_loads(bytes@),
        found matches Some(f) ==> f.1 == pdf_encrypted(bytes@),
{
    match lopdf::Document::load_mem(bytes) {
        Ok(inner) => {
            let encrypted = inner.is_encrypted();
            Some((PdfFile { inner }, encrypted))
        },
        Err(_) => None,
    }
}

/// Calls `lopdf::Document::get_pages`, which numbers the pages of the
/// document, and hands out the page numbers. Nothing is claimed of them.
#[verifier::external_body]
fn pdf_page_numbers(pdf: &PdfFile) -> (pages: Vec<u32>) {
    pdf.inner.get_pages().into_keys().collect()
}

/// Calls `lopdf::Document::extract_text`, which gives the text of the pages
/// with the given numbers, or an error. Nothing is claimed of its result, and
/// the text is not named: where a document holds stray members of object
/// streams, `lopdf` takes them in the order in which its parallel workers
/// finish, so the text is not for every input a function of the bytes alone.
#[verifier::external_body]
fn pdf_page_text(pdf: &PdfFile, pages: &Vec<u32>) -> (text: Option<String>) {
    match pdf.inner.extract_text(pages) {
        Ok(text) => Some(text),
        Err(_) => None,
    }
}

/// The error that a PDF is refused with before any of its text is read:
/// bytes that do not load as a PDF document are `Corrupt`, and a document
/// that reports itself encrypted is `Encrypted`. Other documents are not
/// refused.
pub open spec fn pdf_refusal(bytes: Seq<u8>) -> Option<ExtractError> {
    if !pdf_loads(bytes) {
        Some(ExtractError::Corrupt)
    } else if pdf_encrypted(bytes) {
        Some(ExtractError::Encrypted)
    } else {
        None
    }
}

/// What a parsed PDF gives: an encrypted one is refused, and otherwise the
/// text of its pages, if the pages could be read.
pub fn pdf_text_outcome(encrypted: bool, text: Option<String>) -> (r: Result<String, ExtractError>)
    ensures
        r == (if encrypted {
            Err::<String, ExtractError>(ExtractError::Encrypted)
        } else {
            match text {
                Some(t) => Ok(t),
                None => Err(ExtractError::Corrupt),
            }
        }),
{
    if encrypted {
        Err(ExtractError::Encrypted)
    } else {
        match text {
            Some(t) => Ok(t),
            None => Err(ExtractError::Corrupt),
        }
    }
}

/// The text of all pages of a PDF document. Bytes that do not load as a PDF
/// document are `Corrupt`. A document that reports itself encrypted is
/// `Encrypted`, and no decryption is tried. Any other document gives the text
/// of its pages, or is `Corrupt` where they cannot be read.
pub fn extract_pdf_text(bytes: &[u8]) -> (r: Result<String, ExtractError>)
    ensures
        pdf_refusal(bytes@) matches Some(e) ==> r == Err::<String, ExtractError>(e),
        pdf_refusal(bytes@) is None ==> r is Ok || r == Err::<String, ExtractError>(
            ExtractError::Corrupt,
        ),
{
    match parse_pdf(bytes) {
        None => Err(ExtractError::Corrupt),
        Some((pdf, encrypted)) => {
            let text = if encrypted {
                None
            } else {
                let pages = pdf_page_numbers(&pdf);
                pdf_page_text(&pdf, &pages)
            };
            pdf_text_outcome(encrypted, text)
        },
    }
}

/// The text of a file of the given kind. An XML file always gives its text; a
/// PDF is refused or read as `extract_pdf_text` says.
pub fn extract_text(kind: FileType, bytes: &[u8]) -> (r: Result<String, ExtractError>)
    ensures
        kind == FileType::Xml ==> (r matches Ok(text) && text@ == joined_text(xml_events(bytes@))),
        kind == FileType::Pdf ==> (pdf_refusal(bytes@) matches Some(e) ==> r == Err::<
            String,
            ExtractError,
        >(e)),
        kind == FileType::Pdf && pdf_refusal(bytes@) is None ==> r is Ok || r == Err::<
            String,
            ExtractError,
        >(ExtractError::Corrupt),
{
    match kind {
        FileType::Xml => Ok(extract_xml_text(bytes)),
        FileType::Pdf => extract_pdf_text(bytes),
    }
}

/// Turns the text that was extracted from a file into its document: the text
/// is counted term by term and the document comes back under the file's path.
/// Where no text was extracted, the error is handed on.
pub fn index_text(path: &str, extracted: Result<String, ExtractError>) -> (r: Result<
    (String, Document),
    ExtractError,
>)
    ensures
        match extracted {
            Ok(text) => r matches Ok(f) && f.0@ == path@ && f.1.wf() && f.1@ == terms(
                text@,
            ).to_multiset(),
            Err(e) => r matches Err(x) && x == e,
        },
{
    match extracted {
        Err(e) => Err(e),
        Ok(text) => {
            let doc = create_document_from_text(text.as_str());
            Ok((path.to_owned(), doc))
        },
    }
}

/// What indexing the contents of a file of the given kind comes to. An XML
/// file gives the document of its text under the file's path. A PDF that is
/// refused gives the error it is refused with; any other PDF gives a document
/// under the file's path, or is `Corrupt` where its pages cannot be read.
pub open spec fn analyzed_as(
    kind: FileType,
    path: Seq<char>,
    bytes: Seq<u8>,
    r: Result<(String, Document), ExtractError>,
) -> bool {
    match kind {
        FileType::Xml => r matches Ok(f) && f.0@ == path && f.1.wf() && f.1@ == xml_terms(bytes),
        FileType::Pdf => match pdf_refusal(bytes) {
            Some(e) => r matches Err(x) && x == e,
            None => (r matches Ok(f) && f.0@ == path && f.1.wf()) || (r matches Err(x) && x
                == ExtractError::Corrupt),
        },
    }
}

/// Indexes the contents of a file of the given kind: its text is extracted and
/// counted, and the document comes back under the file's path.
pub fn analyze_bytes(kind: FileType, path: &str, bytes: &[u8]) -> (r: Result<
    (String, Document),
    ExtractError,
>)
    ensures
        analyzed_as(kind, path@, bytes@, r),
{
    index_text(path, extract_text(kind, bytes))
}

/// Indexes one file from its path and contents. A file without an extension,
/// or with one that is not indexed, is `Unsupported`. An XML file always
/// gives a document, which holds the terms of its text. A PDF that does not
/// load is `Corrupt`, one that reports itself encrypted is `Encrypted`, and
/// any other gives a document unless its pages cannot be read.
pub fn analyze_file(path: &str, bytes: &[u8]) -> (r: Result<(String, Document), ExtractError>)
    ensures
        match kind_of_path(path@) {
            None => r matches Err(e) && e == ExtractError::Unsupported,
            Some(kind) => analyzed_as(kind, path@, bytes@, r),
        },
        !path@.contains('.') ==> kind_of_path(path@) is None,
{
    match file_type_of_path(path) {
        Err(e) => Err(e),
        Ok(kind) => analyze_bytes(kind, path, bytes),
    }
}

} // verus!
