//! Answering a query: what each query term weighs in each document, and the
//! ranking of the documents once they are scored.

use crate::index::Index;
use crate::tokenizer::{normalize_term, normalized};
use vstd::multiset::Multiset;
use vstd::prelude::*;

verus! {

/// What one query term weighs in one document that contains it, as the four
/// counts that TF-IDF is made of: the term frequency is `count / total` and
/// the inverse document frequency is the binary logarithm of
/// `documents / containing`.
#[derive(Clone, Copy, Debug, PartialEq, Eq, Structural)]
pub struct TermWeight {
    /// How often the term occurs in the document.
    pub count: usize,
    /// How many term occurrences the document has in all.
    pub total: usize,
    /// How many documents of the index contain the term.
    pub containing: usize,
    /// How many documents the index has.
    pub documents: usize,
}

/// The weights of the query terms in one document of the index.
pub struct DocumentWeights {
    pub path: String,
    pub weights: Vec<TermWeight>,
}

/// The number of documents that contain `term`.
pub open spec fn document_frequency(bags: Seq<Multiset<Seq<char>>>, term: Seq<char>) -> nat
    decreases bags.len(),
{
    if bags.len() == 0 {
        0
    } else {
        document_frequency(bags.drop_last(), term) + if bags.last().contains(term) {
            1nat
        } else {
            0nat
        }
    }
}

/// The weight of a term in the `i`-th document.
pub open spec fn weight_of(bags: Seq<Multiset<Seq<char>>>, i: int, term: Seq<char>) -> TermWeight {
    TermWeight {
        count: bags[i].count(term) as usize,
        total: bags[i].len() as usize,
        containing: document_frequency(bags, term) as usize,
        documents: bags.len() as usize,
    }
}

/// The weights of the raw query terms in the `i`-th document, in query order:
/// each term is normalized as the tokenizer does, and one that the document
/// does not contain has no weight.
pub open spec fn weights_of(bags: Seq<Multiset<Seq<char>>>, i: int, query: Seq<Seq<char>>) -> Seq<
    TermWeight,
>
    decreases query.len(),
{
    if query.len() == 0 {
        Seq::empty()
    } else {
        let term = normalized(query.last());
        let rest = weights_of(bags, i, query.drop_last());
        if bags[i].contains(term) {
            rest.push(weight_of(bags, i, term))
        } else {
            rest
        }
    }
}

/// A term is in no more documents than there are, and in at least one if some
/// document contains it.
pub proof fn lemma_document_frequency(bags: Seq<Multiset<Seq<char>>>, term: Seq<char>)
    ensures
        document_frequency(bags, term) <= bags.len(),
        forall|i: int|
            0 <= i < bags.len() && (#[trigger] bags[i]).contains(term) ==> document_frequency(
                bags,
                term,
            ) >= 1,
    decreases bags.len(),
{
    if bags.len() > 0 {
        let front = bags.drop_last();
        lemma_document_frequency(front, term);
        assert forall|i: int| 0 <= i < bags.len() && (#[trigger] bags[i]).contains(
            term,
        ) implies document_frequency(bags, term) >= 1 by {
            if i < bags.len() - 1 {
                assert(front[i] == bags[i]);
            }
        }
    }
}

/// A document gets no weight from a query whose terms it does not contain. In
/// particular the empty query gives no document any weight.
pub proof fn lemma_absent_terms_weigh_nothing(
    bags: Seq<Multiset<Seq<char>>>,
    i: int,
    query: Seq<Seq<char>>,
)
    requires
        0 <= i < bags.len(),
        forall|j: int| 0 <= j < query.len() ==> !bags[i].contains(normalized(#[trigger] query[j])),
    ensures
        weights_of(bags, i, query) == Seq::<TermWeight>::empty(),
    decreases query.len(),
{
    if query.len() > 0 {
        let front = query.drop_last();
        assert forall|j: int| 0 <= j < front.len() implies !bags[i].contains(
            normalized(#[trigger] front[j]),
        ) by {
            assert(front[j] == query[j]);
        }
        lemma_absent_terms_weigh_nothing(bags, i, front);
        assert(!bags[i].contains(normalized(query[query.len() - 1])));
    }
}

/// Every weight of a document comes from a query term that the document
/// contains, and its counts are in order: the term occurs at least once and
/// at most as often as the document has terms, and it is in at least one
/// document and at most in all. So the term frequency lies in (0, 1], the
/// ratio under the logarithm is at least one, and no weight is negative.
pub proof fn lemma_weights_in_order(bags: Seq<Multiset<Seq<char>>>, i: int, query: Seq<Seq<char>>)
    requires
        0 <= i < bags.len(),
        bags.len() <= usize::MAX,
        bags[i].len() <= usize::MAX,
    ensures
        weights_of(bags, i, query).len() <= query.len(),
        forall|j: int|
            0 <= j < weights_of(bags, i, query).len() ==> {
                let w = #[trigger] weights_of(bags, i, query)[j];
                &&& 1 <= w.count <= w.total
                &&& 1 <= w.containing <= w.documents
                &&& exists|k: int|
                    0 <= k < query.len() && bags[i].contains(normalized(#[trigger] query[k])) && w
                        == weight_of(bags, i, normalized(query[k]))
            },
    decreases query.len(),
{
    broadcast use vstd::multiset::group_multiset_axioms;

    if query.len() > 0 {
        let front = query.drop_last();
        let term = normalized(query.last());
        lemma_weights_in_order(bags, i, front);
        lemma_document_frequency(bags, term);
        let all = weights_of(bags, i, query);
        let rest = weights_of(bags, i, front);
        assert forall|j: int| 0 <= j < all.len() implies {
            let w = #[trigger] all[j];
            &&& 1 <= w.count <= w.total
            &&& 1 <= w.containing <= w.documents
            &&& exists|k: int|
                0 <= k < query.len() && bags[i].contains(normalized(#[trigger] query[k])) && w
                    == weight_of(bags, i, normalized(query[k]))
        } by {
            if j < rest.len() {
                let w = rest[j];
                assert(all[j] == w);
                let k = choose|k: int|
                    0 <= k < front.len() && bags[i].contains(normalized(#[trigger] front[k])) && w
                        == weight_of(bags, i, normalized(front[k]));
                assert(front[k] == query[k]);
            } else {
                assert(bags[i].contains(term));
                assert(all[j] == weight_of(bags, i, term));
                assert(query[query.len() - 1] == query.last());
                assert(bags[i].count(term) <= bags[i].len());
            }
        }
    }
}

/// The views of the raw terms of a query.
pub open spec fn query_view(terms: Seq<&str>) -> Seq<Seq<char>> {
    terms.map_values(|t: &str| t@)
}

/// Counts the documents of the index that contain `term`.
pub fn count_containing(index: &Index, term: &str) -> (n: usize)
    requires
        index.wf(),
    ensures
        n == document_frequency(index.bags(), term@),
{
    let ghost bags = index.bags();
    let mut n: usize = 0;
    let mut i: usize = 0;
    proof {
        index.lemma_listing();
        assert(bags.take(0) =~= Seq::empty());
    }
    while i < index.len()
        invariant
            index.wf(),
            bags == index.bags(),
            i <= bags.len(),
            bags.len() == index.keys().len(),
            n == document_frequency(bags.take(i as int), term@),
        decreases bags.len() - i,
    {
        proof {
            assert(bags.take(i + 1).drop_last() =~= bags.take(i as int));
            assert(bags.take(i + 1).last() == bags[i as int]);
            lemma_document_frequency(bags.take(i as int), term@);
            index.lemma_listing();
        }
        if index.document_at(i).contains_term(term) {
            n = n + 1;
        }
        i = i + 1;
    }
    proof {
        index.lemma_listing();
        assert(bags.take(bags.len() as int) =~= bags);
    }
    n
}

/// Normalizes every raw term of a query, in order.
fn normalize_query(terms: &[&str]) -> (normal: Vec<String>)
    ensures
        normal.len() == terms.len(),
        forall|j: int| 0 <= j < terms.len() ==> (#[trigger] normal[j])@ == normalized(terms[j]@),
{
    let mut normal: Vec<String> = Vec::new();
    let mut j: usize = 0;
    while j < terms.len()
        invariant
            j <= terms.len(),
            normal.len() == j,
            forall|k: int| 0 <= k < j ==> (#[trigger] normal[k])@ == normalized(terms[k]@),
        decreases terms.len() - j,
    {
        normal.push(normalize_term(terms[j]));
        j = j + 1;
    }
    normal
}

/// Counts, for every normalized term, the documents that contain it.
fn count_containing_each(index: &Index, normal: &Vec<String>) -> (containing: Vec<usize>)
    requires
        index.wf(),
    ensures
        containing.len() == normal.len(),
        forall|j: int|
            0 <= j < normal.len() ==> #[trigger] containing[j] == document_frequency(
                index.bags(),
                normal[j]@,
            ),
{
    let mut containing: Vec<usize> = Vec::new();
    let mut j: usize = 0;
    while j < normal.len()
        invariant
            index.wf(),
            j <= normal.len(),
            containing.len() == j,
            forall|k: int|
                0 <= k < j ==> #[trigger] containing[k] == document_frequency(
                    index.bags(),
                    normal[k]@,
                ),
        decreases normal.len() - j,
    {
        containing.push(count_containing(index, normal[j].as_str()));
        j = j + 1;
    }
    containing
}

/// Gathers, for every document of the index, what each query term weighs in
/// it. The documents come in the order of the index, and the weights of each
/// in the order of the query; a term that a document does not contain
/// contributes nothing to it.
pub fn query_weights(index: &Index, terms: &[&str]) -> (all: Vec<DocumentWeights>)
    requires
        index.wf(),
    ensures
        all.len() == index.keys().len(),
        forall|i: int|
            0 <= i < all.len() ==> (#[trigger] all[i]).path@ == index.keys()[i] && all[i].weights@
                == weights_of(index.bags(), i, query_view(terms@)),
{
    let ghost bags = index.bags();
    let ghost query = query_view(terms@);
    let normal = normalize_query(terms);
    let containing = count_containing_each(index, &normal);
    let documents = index.len();
    let mut all: Vec<DocumentWeights> = Vec::new();
    let mut i: usize = 0;
    proof {
        index.lemma_listing();
    }
    while i < documents
        invariant
            index.wf(),
            bags == index.bags(),
            query == query_view(terms@),
            documents == bags.len(),
            bags.len() == index.keys().len(),
            normal.len() == terms.len(),
            containing.len() == terms.len(),
            forall|j: int| 0 <= j < terms.len() ==> (#[trigger] normal[j])@ == normalized(terms[j]@),
            forall|j: int|
                0 <= j < terms.len() ==> #[trigger] containing[j] == document_frequency(
                    bags,
                    normal[j]@,
                ),
            i <= documents,
            all.len() == i,
            forall|k: int|
                0 <= k < i ==> (#[trigger] all[k]).path@ == index.keys()[k] && all[k].weights@
                    == weights_of(bags, k, query),
        decreases documents - i,
    {
        let doc = index.document_at(i);
        let total = doc.total_term_count();
        let mut weights: Vec<TermWeight> = Vec::new();
        let mut j: usize = 0;
        proof {
            assert(query.take(0) =~= Seq::empty());
        }
        while j < terms.len()
            invariant
                doc.wf(),
                doc@ == bags[i as int],
                total == doc@.len(),
                query == query_view(terms@),
                documents == bags.len(),
                i < documents,
                normal.len() == terms.len(),
                containing.len() == terms.len(),
                forall|k: int|
                    0 <= k < terms.len() ==> (#[trigger] normal[k])@ == normalized(terms[k]@),
                forall|k: int|
                    0 <= k < terms.len() ==> #[trigger] containing[k] == document_frequency(
                        bags,
                        normal[k]@,
                    ),
                j <= terms.len(),
                weights@ == weights_of(bags, i as int, query.take(j as int)),
            decreases terms.len() - j,
        {
            proof {
                assert(query.take(j + 1).drop_last() =~= query.take(j as int));
                assert(query.take(j + 1).last() == terms[j as int]@);
                broadcast use vstd::multiset::group_multiset_axioms;

            }
            let count = doc.count(normal[j].as_str());
            if count > 0 {
                weights.push(
                    TermWeight { count, total, containing: containing[j], documents },
                );
            }
            j = j + 1;
        }
        proof {
            assert(query.take(terms.len() as int) =~= query);
        }
        all.push(DocumentWeights { path: index.path_at(i).clone(), weights });
        i = i + 1;
    }
    all
}

/// The score of a document as the ranking reads it. The scores themselves are
/// computed outside this crate; what the ranking needs of one is an integer
/// that orders it among the others and whether it is zero.
#[derive(Clone, Copy, Debug, PartialEq, Eq, Structural)]
pub struct Score {
    /// Orders the scores: of two scores the higher one has the greater key.
    pub key: i64,
    /// Whether the score differs from zero.
    pub nonzero: bool,
}

/// A document that made it into the result, with the key of its score.
struct Hit {
    path: String,
    key: i64,
}

/// Whether a document is part of the result: some query term weighs in it and
/// its score is not zero. A document without any weight has the empty sum for
/// its score and is left out whatever score is handed in for it.
pub open spec fn is_hit(weights: Seq<TermWeight>, score: Score) -> bool {
    weights.len() > 0 && score.nonzero
}

/// The documents that are part of the result, in the order of the index, each
/// as its path and the key of its score.
pub open spec fn hits(documents: Seq<DocumentWeights>, scores: Seq<Score>) -> Seq<
    (Seq<char>, i64),
>
    recommends
        documents.len() == scores.len(),
    decreases documents.len(),
{
    if documents.len() == 0 || scores.len() == 0 {
        Seq::empty()
    } else {
        let rest = hits(documents.drop_last(), scores.drop_last());
        if is_hit(documents.last().weights@, scores.last()) {
            rest.push((documents.last().path@, scores.last().key))
        } else {
            rest
        }
    }
}

/// A ranked list with one more item: the item stands behind every item whose
/// key is at least its own, and before the others.
pub open spec fn insert_ranked(sorted: Seq<(Seq<char>, i64)>, item: (Seq<char>, i64)) -> Seq<
    (Seq<char>, i64),
>
    decreases sorted.len(),
{
    if sorted.len() == 0 {
        seq![item]
    } else if sorted.last().1 >= item.1 {
        sorted.push(item)
    } else {
        insert_ranked(sorted.drop_last(), item).push(sorted.last())
    }
}

/// The items by descending key. Items with the same key keep the order in
/// which they came.
pub open spec fn ranked(items: Seq<(Seq<char>, i64)>) -> Seq<(Seq<char>, i64)>
    decreases items.len(),
{
    if items.len() == 0 {
        Seq::empty()
    } else {
        insert_ranked(ranked(items.drop_last()), items.last())
    }
}

/// Whether the keys of a list never rise.
pub open spec fn descending(items: Seq<(Seq<char>, i64)>) -> bool {
    forall|i: int, j: int| 0 <= i < j < items.len() ==> items[i].1 >= items[j].1
}

/// The paths of a list of items.
pub open spec fn paths_of(items: Seq<(Seq<char>, i64)>) -> Seq<Seq<char>> {
    items.map_values(|item: (Seq<char>, i64)| item.0)
}

/// Inserting at the place where the smaller keys begin is `insert_ranked`.
proof fn lemma_insert_at(sorted: Seq<(Seq<char>, i64)>, item: (Seq<char>, i64), at: int)
    requires
        0 <= at <= sorted.len(),
        forall|k: int| at <= k < sorted.len() ==> sorted[k].1 < item.1,
        at > 0 ==> sorted[at - 1].1 >= item.1,
    ensures
        insert_ranked(sorted, item) == sorted.insert(at, item),
    decreases sorted.len(),
{
    if sorted.len() == 0 {
        assert(sorted.insert(at, item) =~= seq![item]);
    } else if at == sorted.len() {
        assert(sorted.insert(at, item) =~= sorted.push(item));
    } else {
        let front = sorted.drop_last();
        assert(sorted[sorted.len() - 1].1 < item.1);
        assert forall|k: int| at <= k < front.len() implies front[k].1 < item.1 by {
            assert(front[k] == sorted[k]);
        }
        if at > 0 {
            assert(front[at - 1] == sorted[at - 1]);
        }
        lemma_insert_at(front, item, at);
        assert(sorted.insert(at, item) =~= front.insert(at, item).push(sorted.last()));
    }
}

/// Inserting into a descending list keeps it descending and adds the item to
/// what the list holds.
pub proof fn lemma_insert_ranked(sorted: Seq<(Seq<char>, i64)>, item: (Seq<char>, i64))
    requires
        descending(sorted),
    ensures
        descending(insert_ranked(sorted, item)),
        insert_ranked(sorted, item).len() == sorted.len() + 1,
        insert_ranked(sorted, item).to_multiset() == sorted.to_multiset().insert(item),
    decreases sorted.len(),
{
    broadcast use vstd::multiset::group_multiset_axioms;
    broadcast use vstd::seq_lib::group_to_multiset_ensures;

    if sorted.len() == 0 {
        assert(seq![item] =~= sorted.push(item));
    } else if sorted.last().1 >= item.1 {
        let out = sorted.push(item);
        assert forall|i: int, j: int| 0 <= i < j < out.len() implies out[i].1 >= out[j].1 by {
            if j == sorted.len() {
                assert(sorted[i].1 >= sorted[sorted.len() - 1].1);
            }
        }
    } else {
        let front = sorted.drop_last();
        let last = sorted.last();
        assert forall|i: int, j: int| 0 <= i < j < front.len() implies front[i].1
            >= front[j].1 by {
            assert(front[i] == sorted[i] && front[j] == sorted[j]);
        }
        lemma_insert_ranked(front, item);
        let inner = insert_ranked(front, item);
        let out = inner.push(last);
        assert forall|i: int, j: int| 0 <= i < j < out.len() implies out[i].1 >= out[j].1 by {
            if j == inner.len() {
                assert(inner.to_multiset().count(inner[i]) > 0) by {
                    assert(inner.contains(inner[i]));
                }
                if inner[i] == item {
                } else {
                    assert(front.to_multiset().count(inner[i]) > 0);
                    assert(front.contains(inner[i]));
                    let k = choose|k: int| 0 <= k < front.len() && front[k] == inner[i];
                    assert(sorted[k].1 >= sorted[sorted.len() - 1].1);
                }
            }
        }
        assert(sorted =~= front.push(last));
        assert(out.to_multiset() =~= sorted.to_multiset().insert(item));
    }
}

/// The ranked list is descending and holds exactly the items that went in,
/// each as often as it went in.
pub proof fn lemma_ranked(items: Seq<(Seq<char>, i64)>)
    ensures
        descending(ranked(items)),
        ranked(items).len() == items.len(),
        ranked(items).to_multiset() == items.to_multiset(),
    decreases items.len(),
{
    broadcast use vstd::multiset::group_multiset_axioms;
    broadcast use vstd::seq_lib::group_to_multiset_ensures;

    if items.len() == 0 {
        assert(ranked(items) =~= items);
    } else {
        lemma_ranked(items.drop_last());
        lemma_insert_ranked(ranked(items.drop_last()), items.last());
        assert(items =~= items.drop_last().push(items.last()));
    }
}

/// Every hit is a document that some query term weighs in and whose score is
/// not zero. So a document that contains none of the query terms, and one
/// whose score is zero, is in no result.
pub proof fn lemma_hits(documents: Seq<DocumentWeights>, scores: Seq<Score>)
    requires
        documents.len() == scores.len(),
    ensures
        hits(documents, scores).len() <= documents.len(),
        forall|h: int|
            0 <= h < hits(documents, scores).len() ==> exists|i: int|
                0 <= i < documents.len() && is_hit((#[trigger] documents[i]).weights@, scores[i])
                    && (#[trigger] hits(documents, scores)[h]) == (
                    documents[i].path@,
                    scores[i].key,
                ),
    decreases documents.len(),
{
    if documents.len() > 0 {
        let front = documents.drop_last();
        let front_scores = scores.drop_last();
        lemma_hits(front, front_scores);
        let all = hits(documents, scores);
        let rest = hits(front, front_scores);
        assert forall|h: int| 0 <= h < all.len() implies exists|i: int|
            0 <= i < documents.len() && is_hit((#[trigger] documents[i]).weights@, scores[i]) && (
            #[trigger] all[h]) == (documents[i].path@, scores[i].key) by {
            if h < rest.len() {
                assert(all[h] == rest[h]);
                let i = choose|i: int|
                    0 <= i < front.len() && is_hit((#[trigger] front[i]).weights@, front_scores[i])
                        && rest[h] == (front[i].path@, front_scores[i].key);
                assert(front[i] == documents[i]);
                assert(front_scores[i] == scores[i]);
            } else {
                let i = documents.len() - 1;
                assert(is_hit(documents[i].weights@, scores[i]));
            }
        }
    }
}

/// What a result is made of: its entries come by descending key, and each is
/// a document that some query term weighs in and whose score is not zero.
pub proof fn lemma_result(documents: Seq<DocumentWeights>, scores: Seq<Score>)
    requires
        documents.len() == scores.len(),
    ensures
        descending(ranked(hits(documents, scores))),
        ranked(hits(documents, scores)).len() <= documents.len(),
        forall|r: int|
            0 <= r < ranked(hits(documents, scores)).len() ==> exists|i: int|
                0 <= i < documents.len() && is_hit((#[trigger] documents[i]).weights@, scores[i])
                    && (#[trigger] ranked(hits(documents, scores))[r]) == (
                    documents[i].path@,
                    scores[i].key,
                ),
{
    broadcast use vstd::seq_lib::group_to_multiset_ensures;

    let found = hits(documents, scores);
    let result = ranked(found);
    lemma_hits(documents, scores);
    lemma_ranked(found);
    assert forall|r: int| 0 <= r < result.len() implies exists|i: int|
        0 <= i < documents.len() && is_hit((#[trigger] documents[i]).weights@, scores[i]) && (
        #[trigger] result[r]) == (documents[i].path@, scores[i].key) by {
        assert(result.contains(result[r]));
        assert(result.to_multiset().count(result[r]) > 0);
        assert(found.to_multiset().count(result[r]) > 0);
        assert(found.contains(result[r]));
        let h = choose|h: int| 0 <= h < found.len() && found[h] == result[r];
        let i = choose|i: int|
            0 <= i < documents.len() && is_hit((#[trigger] documents[i]).weights@, scores[i]) && (
            #[trigger] found[h]) == (documents[i].path@, scores[i].key);
        assert(result[r] == (documents[i].path@, scores[i].key));
    }
}

/// A document that contains none of the query terms is no hit, whatever
/// score is handed in for it: no term weighs in it, so its score is the empty
/// sum.
pub proof fn lemma_unmatched_document_is_no_hit(
    bags: Seq<Multiset<Seq<char>>>,
    i: int,
    query: Seq<Seq<char>>,
    score: Score,
)
    requires
        0 <= i < bags.len(),
        forall|j: int| 0 <= j < query.len() ==> !bags[i].contains(normalized(#[trigger] query[j])),
    ensures
        !is_hit(weights_of(bags, i, query), score),
{
    lemma_absent_terms_weigh_nothing(bags, i, query);
}

/// Puts one more hit into a ranked list.
fn place_hit(sorted: &mut Vec<Hit>, hit: Hit)
    requires
        descending(hit_views(old(sorted)@)),
    ensures
        hit_views(final(sorted)@) == insert_ranked(hit_views(old(sorted)@), (hit.path@, hit.key)),
        descending(hit_views(final(sorted)@)),
{
    let ghost before = hit_views(sorted@);
    let ghost item = (hit.path@, hit.key);
    let mut at: usize = sorted.len();
    while at > 0 && sorted[at - 1].key < hit.key
        invariant
            at <= sorted.len(),
            before == hit_views(sorted@),
            forall|k: int| at <= k < sorted.len() ==> (#[trigger] before[k]).1 < hit.key,
        decreases at,
    {
        at = at - 1;
    }
    proof {
        if at > 0 {
            assert(before[at - 1].1 >= hit.key);
        }
        lemma_insert_at(before, item, at as int);
        lemma_insert_ranked(before, item);
    }
    sorted.insert(at, hit);
    assert(hit_views(sorted@) =~= before.insert(at as int, item));
}

/// A list of hits as paths and keys.
spec fn hit_views(found: Seq<Hit>) -> Seq<(Seq<char>, i64)> {
    found.map_values(|hit: Hit| (hit.path@, hit.key))
}

/// The views of a list of paths.
pub open spec fn path_views(paths: Seq<String>) -> Seq<Seq<char>> {
    paths.map_values(|path: String| path@)
}

/// Ranks the documents of a query by their scores. `scores[i]` is the score
/// of `documents[i]`. The result holds the paths of the documents that some
/// query term weighs in and whose score is not zero, by descending key;
/// documents with equal keys keep the order of the index.
pub fn rank_documents(documents: Vec<DocumentWeights>, scores: &Vec<Score>) -> (paths: Vec<String>)
    requires
        documents.len() == scores.len(),
    ensures
        path_views(paths@) == paths_of(ranked(hits(documents@, scores@))),
{
    let ghost all = documents@;
    let mut sorted: Vec<Hit> = Vec::new();
    proof {
        assert(all.take(0) =~= Seq::empty());
        assert(hit_views(sorted@) =~= Seq::empty());
    }
    let mut next: usize = 0;
    for document in it: documents
        invariant
            it.seq() == all,
            all.len() == scores.len(),
            next == it.index(),
            descending(hit_views(sorted@)),
            hit_views(sorted@) == ranked(
                hits(all.take(it.index() as int), scores@.take(it.index() as int)),
            ),
    {
        let ghost i = it.index() as int;
        proof {
            assert(all.take(i + 1).drop_last() =~= all.take(i));
            assert(scores@.take(i + 1).drop_last() =~= scores@.take(i));
            assert(all.take(i + 1).last() == document);
            assert(scores@.take(i + 1).last() == scores[i]);
        }
        let score = scores[next];
        let ghost earlier = hits(all.take(i), scores@.take(i));
        if document.weights.len() > 0 && score.nonzero {
            proof {
                let item = (document.path@, score.key);
                assert(hits(all.take(i + 1), scores@.take(i + 1)) == earlier.push(item));
                assert(earlier.push(item).drop_last() =~= earlier);
            }
            place_hit(&mut sorted, Hit { path: document.path, key: score.key });
        } else {
            assert(hits(all.take(i + 1), scores@.take(i + 1)) == earlier);
        }
        next = next + 1;
    }
    proof {
        assert(all.take(all.len() as int) =~= all);
        assert(scores@.take(all.len() as int) =~= scores@);
    }
    let ghost found = sorted@;
    let mut paths: Vec<String> = Vec::new();
    for hit in it: sorted
        invariant
            it.seq() == found,
            path_views(paths@) == paths_of(hit_views(found.take(it.index() as int))),
    {
        let ghost i = it.index() as int;
        let ghost earlier = paths@;
        proof {
            assert(found.take(i + 1) =~= found.take(i).push(hit));
            assert(hit_views(found.take(i + 1)) =~= hit_views(found.take(i)).push(
                (hit.path@, hit.key),
            ));
            assert(paths_of(hit_views(found.take(i + 1))) =~= paths_of(
                hit_views(found.take(i)),
            ).push(hit.path@));
        }
        paths.push(hit.path);
        assert(path_views(paths@) =~= path_views(earlier).push(hit.path@));
    }
    proof {
        assert(found.take(found.len() as int) =~= found);
    }
    paths
}

} // verus!
