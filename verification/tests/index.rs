use local_search::document::Document;
use local_search::extract::{analyze_file, ExtractError};
use local_search::index::{merge_all, Index};
use local_search::tokenizer::create_document_from_text;

fn listing(index: &Index) -> Vec<(String, Vec<(String, usize)>)> {
    let mut all = Vec::new();
    for i in 0..index.len() {
        let doc = index.document_at(i);
        let mut terms = Vec::new();
        for j in 0..doc.len() {
            terms.push((doc.term_at(j).clone(), doc.count_at(j)));
        }
        terms.sort();
        all.push((index.path_at(i).clone(), terms));
    }
    all.sort();
    all
}

fn part(files: &[(&str, &str)]) -> Index {
    let mut index = Index::new();
    for (path, text) in files {
        index.insert(path.to_string(), create_document_from_text(text));
    }
    index
}

#[test]
fn a_new_index_is_empty() {
    let index = Index::new();
    assert_eq!(index.len(), 0);
    assert!(!index.contains_path("/docs/a.xml"));
    assert!(index.get("/docs/a.xml").is_none());
}

#[test]
fn insert_keeps_a_document_under_its_path() {
    let mut index = Index::new();
    index.insert(String::from("/docs/a.xml"), create_document_from_text("the cat sat"));
    index.insert(String::from("/docs/b.xml"), create_document_from_text("the dog sat"));
    assert_eq!(index.len(), 2);
    assert!(index.contains_path("/docs/a.xml"));
    assert!(index.contains_path("/docs/b.xml"));
    assert!(!index.contains_path("/docs/c.xml"));
    assert_eq!(index.get("/docs/a.xml").unwrap().count("cat"), 1);
    assert_eq!(index.get("/docs/b.xml").unwrap().count("cat"), 0);
    assert_eq!(index.path_at(0), "/docs/a.xml");
    assert_eq!(index.path_at(1), "/docs/b.xml");
    assert_eq!(index.document_at(1).count("dog"), 1);
}

#[test]
fn insert_replaces_the_document_of_a_path() {
    let mut index = Index::new();
    index.insert(String::from("/docs/a.xml"), create_document_from_text("old old words"));
    index.insert(String::from("/docs/b.xml"), create_document_from_text("other"));
    index.insert(String::from("/docs/a.xml"), create_document_from_text("new"));
    assert_eq!(index.len(), 2);
    let doc = index.get("/docs/a.xml").unwrap();
    assert_eq!(doc.count("old"), 0);
    assert_eq!(doc.count("new"), 1);
    assert_eq!(doc.total_term_count(), 1);
    assert_eq!(index.get("/docs/b.xml").unwrap().count("other"), 1);
}

#[test]
fn an_empty_document_can_be_kept() {
    let mut index = Index::new();
    index.insert(String::from("/docs/empty.xml"), Document::new());
    assert_eq!(index.len(), 1);
    assert_eq!(index.get("/docs/empty.xml").unwrap().total_term_count(), 0);
}

#[test]
fn merge_takes_over_every_document() {
    let mut left = part(&[("/a/1.xml", "one"), ("/a/2.xml", "two")]);
    let right = part(&[("/b/1.xml", "three"), ("/b/2.xml", "four four")]);
    left.merge(right);
    assert_eq!(left.len(), 4);
    assert_eq!(left.get("/a/1.xml").unwrap().count("one"), 1);
    assert_eq!(left.get("/b/2.xml").unwrap().count("four"), 2);
}

#[test]
fn merge_prefers_the_document_that_comes_in() {
    let mut left = part(&[("/a/1.xml", "stale")]);
    let right = part(&[("/a/1.xml", "fresh")]);
    left.merge(right);
    assert_eq!(left.len(), 1);
    assert_eq!(left.get("/a/1.xml").unwrap().count("fresh"), 1);
    assert_eq!(left.get("/a/1.xml").unwrap().count("stale"), 0);
}

#[test]
fn merge_with_an_empty_index_changes_nothing() {
    let mut left = part(&[("/a/1.xml", "one")]);
    left.merge(Index::new());
    assert_eq!(listing(&left), listing(&part(&[("/a/1.xml", "one")])));
    let mut empty = Index::new();
    empty.merge(part(&[("/a/1.xml", "one")]));
    assert_eq!(listing(&empty), listing(&part(&[("/a/1.xml", "one")])));
}

#[test]
fn merging_subtrees_in_any_order_gives_the_same_index() {
    let files_a = [("/root/a/1.xml", "the cat sat"), ("/root/a/2.xml", "a dog ran")];
    let files_b = [("/root/b/1.xml", "cats and dogs")];
    let files_c = [("/root/c/x/1.xml", "nothing, here!"), ("/root/c/2.xml", "the end")];
    let orders: [[usize; 3]; 6] =
        [[0, 1, 2], [0, 2, 1], [1, 0, 2], [1, 2, 0], [2, 0, 1], [2, 1, 0]];
    let expected = listing(&merge_all(vec![part(&files_a), part(&files_b), part(&files_c)]));
    assert_eq!(expected.len(), 5);
    for order in orders {
        let mut parts = Vec::new();
        for k in order {
            parts.push(match k {
                0 => part(&files_a),
                1 => part(&files_b),
                _ => part(&files_c),
            });
        }
        assert_eq!(listing(&merge_all(parts)), expected);
    }
}

#[test]
fn merge_all_of_nothing_is_empty() {
    assert_eq!(merge_all(Vec::new()).len(), 0);
}

#[test]
fn add_file_indexes_what_can_be_indexed() {
    let mut index = Index::new();
    assert!(index.add_file("/docs/a.xml", b"<r>the cat sat</r>").is_ok());
    assert!(index.add_file("/docs/notes.txt", b"plain").is_err());
    assert!(index.add_file("/docs/broken.pdf", b"junk").is_err());
    assert!(index.add_file("/docs/b.xml", b"<r>the dog sat</r>").is_ok());
    assert_eq!(index.len(), 2);
    assert_eq!(index.get("/docs/a.xml").unwrap().count("cat"), 1);
    assert_eq!(index.get("/docs/b.xml").unwrap().count("dog"), 1);
}

#[test]
fn insert_analyzed_keeps_a_document_and_hands_on_an_error() {
    let mut index = Index::new();
    let doc = create_document_from_text("the cat sat");
    assert_eq!(index.insert_analyzed(Ok((String::from("/docs/a.xml"), doc))), Ok(()));
    assert_eq!(index.len(), 1);
    assert_eq!(index.get("/docs/a.xml").unwrap().count("cat"), 1);
    assert_eq!(index.insert_analyzed(Err(ExtractError::Encrypted)), Err(ExtractError::Encrypted));
    assert_eq!(index.insert_analyzed(Err(ExtractError::Corrupt)), Err(ExtractError::Corrupt));
    assert_eq!(
        index.insert_analyzed(Err(ExtractError::Unsupported)),
        Err(ExtractError::Unsupported)
    );
    assert_eq!(index.len(), 1);
    assert_eq!(index.path_at(0), "/docs/a.xml");
}

#[test]
fn insert_analyzed_takes_what_analyze_file_gives() {
    let mut index = Index::new();
    assert_eq!(index.insert_analyzed(analyze_file("/docs/b.xhtml", b"<p>two dogs</p>")), Ok(()));
    assert_eq!(
        index.insert_analyzed(analyze_file("/docs/c.txt", b"<p>two dogs</p>")),
        Err(ExtractError::Unsupported)
    );
    assert_eq!(index.len(), 1);
    assert_eq!(index.get("/docs/b.xhtml").unwrap().count("dog"), 1);
    assert_eq!(index.get("/docs/b.xhtml").unwrap().count("two"), 1);
}

#[test]
fn add_file_keeps_an_xml_file_with_the_terms_of_its_text() {
    let mut index = Index::new();
    assert_eq!(index.add_file("/docs/a.xml", b"<r>cats, cats and a dog</r>"), Ok(()));
    let doc = index.get("/docs/a.xml").unwrap();
    assert_eq!(doc.count("cat"), 2);
    assert_eq!(doc.count(","), 1);
    assert_eq!(doc.count("and"), 1);
    assert_eq!(doc.count("a"), 1);
    assert_eq!(doc.count("dog"), 1);
    assert_eq!(doc.total_term_count(), 6);
    assert_eq!(index.add_file("/docs/README", b"<r>cats</r>"), Err(ExtractError::Unsupported));
    assert_eq!(index.add_file("/docs/broken.pdf", b"<r>cats</r>"), Err(ExtractError::Corrupt));
    assert_eq!(index.len(), 1);
}
