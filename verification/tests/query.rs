use local_search::index::Index;
use local_search::query::{
    count_containing, query_weights, rank_documents, DocumentWeights, Score, TermWeight,
};
use local_search::tokenizer::create_document_from_text;

fn tf_idf(weights: &[TermWeight]) -> f64 {
    let mut point = 0.0;
    for w in weights {
        let tf = w.count as f64 / w.total as f64;
        let idf = (w.documents as f64 / w.containing as f64).log2();
        point += tf * idf;
    }
    point
}

fn score_of(point: f64) -> Score {
    let bits = point.to_bits() as i64;
    Score { key: bits ^ ((((bits >> 63) as u64) >> 1) as i64), nonzero: point != 0.0 }
}

fn do_query(index: &Index, terms: &[&str]) -> Vec<String> {
    let weights = query_weights(index, terms);
    let scores: Vec<Score> = weights.iter().map(|d| score_of(tf_idf(&d.weights))).collect();
    rank_documents(weights, &scores)
}

fn index_of(files: &[(&str, &str)]) -> Index {
    let mut index = Index::new();
    for (path, text) in files {
        index.insert(path.to_string(), create_document_from_text(text));
    }
    index
}

fn weights_by_path(path: &str, weights: Vec<TermWeight>) -> DocumentWeights {
    DocumentWeights { path: String::from(path), weights }
}

fn some_weight() -> TermWeight {
    TermWeight { count: 1, total: 3, containing: 1, documents: 2 }
}

#[test]
fn querying_cat_finds_the_document_with_the_cat() {
    let mut index = Index::new();
    index.add_file("a.xml", b"<r>the cat sat</r>").unwrap();
    index.add_file("b.xml", b"<r>the dog sat</r>").unwrap();
    assert_eq!(do_query(&index, &["cat"]), vec![String::from("a.xml")]);
    assert_eq!(do_query(&index, &["dog"]), vec![String::from("b.xml")]);
}

#[test]
fn an_empty_query_finds_nothing() {
    let index = index_of(&[("a.xml", "the cat sat"), ("b.xml", "the dog sat")]);
    assert_eq!(do_query(&index, &[]), Vec::<String>::new());
    let weights = query_weights(&index, &[]);
    assert_eq!(weights.len(), 2);
    assert!(weights[0].weights.is_empty());
    assert!(weights[1].weights.is_empty());
}

#[test]
fn a_query_on_an_empty_index_finds_nothing() {
    assert_eq!(do_query(&Index::new(), &["cat"]), Vec::<String>::new());
    assert!(query_weights(&Index::new(), &["cat"]).is_empty());
}

#[test]
fn a_term_in_every_document_scores_zero() {
    let index = index_of(&[("a.xml", "the cat sat"), ("b.xml", "the dog sat")]);
    assert_eq!(do_query(&index, &["the"]), Vec::<String>::new());
    assert_eq!(do_query(&index, &["sat", "the"]), Vec::<String>::new());
}

#[test]
fn a_term_in_no_document_weighs_nothing() {
    let index = index_of(&[("a.xml", "the cat sat"), ("b.xml", "the dog sat")]);
    let weights = query_weights(&index, &["cow"]);
    assert!(weights[0].weights.is_empty());
    assert!(weights[1].weights.is_empty());
    assert_eq!(do_query(&index, &["cow"]), Vec::<String>::new());
}

#[test]
fn weights_hold_the_four_counts_of_each_present_term() {
    let index = index_of(&[
        ("a.xml", "the cat sat on the cat"),
        ("b.xml", "the dog sat"),
        ("c.xml", "a cat"),
    ]);
    let weights = query_weights(&index, &["cat", "cow", "the"]);
    assert_eq!(weights.len(), 3);
    assert_eq!(weights[0].path, "a.xml");
    assert_eq!(
        weights[0].weights,
        vec![
            TermWeight { count: 2, total: 6, containing: 2, documents: 3 },
            TermWeight { count: 2, total: 6, containing: 2, documents: 3 },
        ]
    );
    assert_eq!(weights[1].path, "b.xml");
    assert_eq!(
        weights[1].weights,
        vec![TermWeight { count: 1, total: 3, containing: 2, documents: 3 }]
    );
    assert_eq!(weights[2].path, "c.xml");
    assert_eq!(
        weights[2].weights,
        vec![TermWeight { count: 1, total: 2, containing: 2, documents: 3 }]
    );
}

#[test]
fn a_repeated_query_term_weighs_each_time() {
    let index = index_of(&[("a.xml", "the cat sat"), ("b.xml", "the dog sat")]);
    let weights = query_weights(&index, &["cat", "cat"]);
    assert_eq!(weights[0].weights.len(), 2);
    assert_eq!(weights[1].weights.len(), 0);
}

#[test]
fn query_terms_are_normalized_like_the_text() {
    let index = index_of(&[("a.xml", "running cats"), ("b.xml", "a dog")]);
    assert_eq!(do_query(&index, &["Run"]), vec![String::from("a.xml")]);
    assert_eq!(do_query(&index, &["CAT"]), vec![String::from("a.xml")]);
    assert_eq!(do_query(&index, &["dogs"]), vec![String::from("b.xml")]);
}

#[test]
fn count_containing_counts_documents_not_occurrences() {
    let index = index_of(&[("a.xml", "cat cat cat"), ("b.xml", "dog"), ("c.xml", "cat dog")]);
    assert_eq!(count_containing(&index, "cat"), 2);
    assert_eq!(count_containing(&index, "dog"), 2);
    assert_eq!(count_containing(&index, "cow"), 0);
    assert_eq!(count_containing(&Index::new(), "cat"), 0);
}

#[test]
fn the_score_is_the_sum_of_tf_times_idf() {
    let index = index_of(&[
        ("a.xml", "cat cat dog bird"),
        ("b.xml", "dog"),
        ("c.xml", "fish"),
        ("d.xml", "fish fish"),
    ]);
    let weights = query_weights(&index, &["cat", "dog"]);
    assert_eq!(tf_idf(&weights[0].weights), 0.5 * 2.0 + 0.25 * 1.0);
    assert_eq!(tf_idf(&weights[1].weights), 1.0);
    assert_eq!(tf_idf(&weights[2].weights), 0.0);
    assert_eq!(tf_idf(&weights[3].weights), 0.0);
    assert_eq!(do_query(&index, &["cat", "dog"]), vec![String::from("a.xml"), String::from("b.xml")]);
}

#[test]
fn documents_are_ranked_by_descending_score() {
    let index = index_of(&[
        ("low.xml", "cat dog dog dog dog dog dog dog"),
        ("high.xml", "cat"),
        ("none.xml", "bird"),
        ("mid.xml", "cat bird"),
    ]);
    assert_eq!(
        do_query(&index, &["cat"]),
        vec![String::from("high.xml"), String::from("mid.xml"), String::from("low.xml")]
    );
}

#[test]
fn scores_are_never_negative() {
    let index = index_of(&[
        ("a.xml", "the cat sat on the mat"),
        ("b.xml", "the dog sat"),
        ("c.xml", "a bird, a cat and the dog!"),
    ]);
    for query in [vec!["the"], vec!["cat", "dog"], vec!["bird", "cow", ","], vec![]] {
        for document in query_weights(&index, &query) {
            for w in &document.weights {
                assert!(1 <= w.count && w.count <= w.total);
                assert!(1 <= w.containing && w.containing <= w.documents);
            }
            assert!(tf_idf(&document.weights) >= 0.0);
        }
    }
}

#[test]
fn rank_documents_leaves_out_zero_scores() {
    let documents = vec![
        weights_by_path("a", vec![some_weight()]),
        weights_by_path("b", vec![some_weight()]),
        weights_by_path("c", vec![some_weight()]),
    ];
    let scores = vec![
        Score { key: 5, nonzero: true },
        Score { key: 0, nonzero: false },
        Score { key: 9, nonzero: true },
    ];
    assert_eq!(rank_documents(documents, &scores), vec![String::from("c"), String::from("a")]);
}

#[test]
fn rank_documents_leaves_out_documents_without_weights() {
    let documents = vec![weights_by_path("a", vec![]), weights_by_path("b", vec![some_weight()])];
    let scores = vec![Score { key: 9, nonzero: true }, Score { key: 1, nonzero: true }];
    assert_eq!(rank_documents(documents, &scores), vec![String::from("b")]);
}

#[test]
fn rank_documents_keeps_the_order_of_equal_scores() {
    let documents = vec![
        weights_by_path("first", vec![some_weight()]),
        weights_by_path("second", vec![some_weight()]),
        weights_by_path("top", vec![some_weight()]),
        weights_by_path("third", vec![some_weight()]),
    ];
    let scores = vec![
        Score { key: 3, nonzero: true },
        Score { key: 3, nonzero: true },
        Score { key: 7, nonzero: true },
        Score { key: 3, nonzero: true },
    ];
    assert_eq!(
        rank_documents(documents, &scores),
        vec![
            String::from("top"),
            String::from("first"),
            String::from("second"),
            String::from("third")
        ]
    );
}

#[test]
fn rank_documents_orders_negative_keys_last() {
    let documents = vec![
        weights_by_path("a", vec![some_weight()]),
        weights_by_path("b", vec![some_weight()]),
        weights_by_path("c", vec![some_weight()]),
    ];
    let scores = vec![
        Score { key: i64::MIN, nonzero: true },
        Score { key: i64::MAX, nonzero: true },
        Score { key: -1, nonzero: true },
    ];
    assert_eq!(
        rank_documents(documents, &scores),
        vec![String::from("b"), String::from("c"), String::from("a")]
    );
}

#[test]
fn rank_documents_of_nothing_is_empty() {
    assert_eq!(rank_documents(Vec::new(), &Vec::new()), Vec::<String>::new());
}
