//! The index: every indexed document under the path of its file.

use crate::document::Document;
use crate::extract::{
    analyze_file, kind_of_path, pdf_refusal, xml_terms, ExtractError, FileType,
};
use vstd::hash_map::StringHashMap;
use vstd::multiset::Multiset;
use vstd::prelude::*;

verus! {

/// One document of the index with the path it is kept under.
struct Entry {
    path: String,
    document: Document,
}

/// The map that a list of keyed values builds when each is inserted in
/// turn: a later value replaces an earlier one under the same key.
pub open spec fn map_of<V>(pairs: Seq<(Seq<char>, V)>) -> Map<Seq<char>, V>
    decreases pairs.len(),
{
    if pairs.len() == 0 {
        Map::empty()
    } else {
        map_of(pairs.drop_last()).insert(pairs.last().0, pairs.last().1)
    }
}

/// Whether no key occurs twice in a list of keys.
pub open spec fn distinct(keys: Seq<Seq<char>>) -> bool {
    forall|i: int, j: int| 0 <= i < j < keys.len() ==> keys[i] != keys[j]
}

/// The map of a list of pairs with distinct keys holds exactly those pairs.
pub proof fn lemma_map_of<V>(pairs: Seq<(Seq<char>, V)>)
    requires
        forall|i: int, j: int| 0 <= i < j < pairs.len() ==> pairs[i].0 != pairs[j].0,
    ensures
        forall|i: int|
            0 <= i < pairs.len() ==> map_of(pairs).contains_key(#[trigger] pairs[i].0) && map_of(
                pairs,
            )[pairs[i].0] == pairs[i].1,
        forall|k: Seq<char>| #[trigger]
            map_of(pairs).contains_key(k) ==> exists|i: int|
                0 <= i < pairs.len() && #[trigger] pairs[i].0 == k,
    decreases pairs.len(),
{
    if pairs.len() > 0 {
        let front = pairs.drop_last();
        lemma_map_of(front);
        assert forall|i: int| 0 <= i < pairs.len() implies map_of(pairs).contains_key(
            #[trigger] pairs[i].0,
        ) && map_of(pairs)[pairs[i].0] == pairs[i].1 by {
            if i < pairs.len() - 1 {
                assert(front[i] == pairs[i]);
                assert(pairs[i].0 != pairs[pairs.len() - 1].0);
            }
        }
        assert forall|k: Seq<char>| #[trigger] map_of(pairs).contains_key(k) implies exists|i: int|
            0 <= i < pairs.len() && #[trigger] pairs[i].0 == k by {
            if k == pairs.last().0 {
                assert(pairs[pairs.len() - 1].0 == k);
            } else {
                assert(map_of(front).contains_key(k));
                let i = choose|i: int| 0 <= i < front.len() && #[trigger] front[i].0 == k;
                assert(pairs[i].0 == k);
            }
        }
    }
}

/// Whether two maps hold the same value under every key that both hold.
pub open spec fn agree<V>(a: Map<Seq<char>, V>, b: Map<Seq<char>, V>) -> bool {
    forall|k: Seq<char>| a.contains_key(k) && b.contains_key(k) ==> a[k] == b[k]
}

/// The union of a list of maps, taken from first to last: under a key that
/// several hold, the last one decides.
pub open spec fn union_all<V>(parts: Seq<Map<Seq<char>, V>>) -> Map<Seq<char>, V>
    decreases parts.len(),
{
    if parts.len() == 0 {
        Map::empty()
    } else {
        union_all(parts.drop_last()).union_prefer_right(parts.last())
    }
}

/// Merging two partial indexes gives the same index in either order, as long
/// as they hold the same document wherever both hold one. Partial indexes of
/// different subtrees share no path and so always agree.
pub proof fn lemma_merge_commutes<V>(a: Map<Seq<char>, V>, b: Map<Seq<char>, V>)
    requires
        agree(a, b),
    ensures
        a.union_prefer_right(b) == b.union_prefer_right(a),
{
    assert(a.union_prefer_right(b) =~= b.union_prefer_right(a));
}

/// Merging is associative: how the partial indexes are grouped does not
/// matter.
pub proof fn lemma_merge_associates<V>(
    a: Map<Seq<char>, V>,
    b: Map<Seq<char>, V>,
    c: Map<Seq<char>, V>,
)
    ensures
        a.union_prefer_right(b).union_prefer_right(c) == a.union_prefer_right(
            b.union_prefer_right(c),
        ),
{
    assert(a.union_prefer_right(b).union_prefer_right(c) =~= a.union_prefer_right(
        b.union_prefer_right(c),
    ));
}

/// The union of parts that agree pairwise holds a key exactly when one of the
/// parts does, with the value that every such part has for it.
pub proof fn lemma_union_all<V>(parts: Seq<Map<Seq<char>, V>>)
    requires
        forall|i: int, j: int| 0 <= i < parts.len() && 0 <= j < parts.len() ==> agree(parts[i], parts[j]),
    ensures
        forall|k: Seq<char>| #[trigger]
            union_all(parts).contains_key(k) <==> exists|i: int|
                0 <= i < parts.len() && (#[trigger] parts[i]).contains_key(k),
        forall|i: int, k: Seq<char>|
            0 <= i < parts.len() && (#[trigger] parts[i]).contains_key(k) ==> #[trigger] union_all(
                parts,
            )[k] == parts[i][k],
    decreases parts.len(),
{
    if parts.len() > 0 {
        let front = parts.drop_last();
        let last = parts.last();
        let n = parts.len() - 1;
        assert forall|i: int, j: int| 0 <= i < front.len() && 0 <= j < front.len() implies agree(
            front[i],
            front[j],
        ) by {
            assert(front[i] == parts[i]);
            assert(front[j] == parts[j]);
        }
        lemma_union_all(front);
        let whole = union_all(parts);
        assert(whole == union_all(front).union_prefer_right(last));
        assert forall|k: Seq<char>| #[trigger] whole.contains_key(k) implies exists|i: int|
            0 <= i < parts.len() && (#[trigger] parts[i]).contains_key(k) by {
            if last.contains_key(k) {
                assert(parts[n].contains_key(k));
            } else {
                assert(union_all(front).contains_key(k));
                let i = choose|i: int| 0 <= i < front.len() && (#[trigger] front[i]).contains_key(k);
                assert(front[i] == parts[i]);
                assert(parts[i].contains_key(k));
            }
        }
        assert forall|i: int, k: Seq<char>|
            0 <= i < parts.len() && (#[trigger] parts[i]).contains_key(k) implies (
        #[trigger] whole.contains_key(k)) && whole[k] == parts[i][k] by {
            if last.contains_key(k) {
                assert(agree(parts[i], parts[n]));
                assert(whole[k] == last[k]);
            } else {
                assert(i < n);
                assert(front[i] == parts[i]);
                assert(front[i].contains_key(k));
                assert(union_all(front).contains_key(k));
                assert(union_all(front)[k] == front[i][k]);
            }
        }
    }
}

/// Merging the partial indexes of a tree gives the same index in whatever
/// order they arrive, as long as they hold the same document wherever two of
/// them hold one: two lists of the same parts have the same union.
pub proof fn lemma_union_order_independent<V>(
    first: Seq<Map<Seq<char>, V>>,
    second: Seq<Map<Seq<char>, V>>,
)
    requires
        forall|i: int, j: int|
            0 <= i < first.len() && 0 <= j < first.len() ==> agree(first[i], first[j]),
        forall|i: int| 0 <= i < first.len() ==> second.contains(#[trigger] first[i]),
        forall|j: int| 0 <= j < second.len() ==> first.contains(#[trigger] second[j]),
    ensures
        union_all(first) == union_all(second),
{
    assert forall|i: int, j: int| 0 <= i < second.len() && 0 <= j < second.len() implies agree(
        second[i],
        second[j],
    ) by {
        assert(first.contains(second[i]));
        assert(first.contains(second[j]));
        let a = choose|a: int| 0 <= a < first.len() && first[a] == second[i];
        let b = choose|b: int| 0 <= b < first.len() && first[b] == second[j];
        assert(agree(first[a], first[b]));
    }
    lemma_union_all(first);
    lemma_union_all(second);
    let u = union_all(first);
    let v = union_all(second);
    assert forall|k: Seq<char>| u.contains_key(k) implies v.contains_key(k) && u[k] == v[k] by {
        let i = choose|i: int| 0 <= i < first.len() && (#[trigger] first[i]).contains_key(k);
        assert(second.contains(first[i]));
        let j = choose|j: int| 0 <= j < second.len() && second[j] == first[i];
        assert(second[j].contains_key(k));
        assert(u[k] == first[i][k]);
        assert(v[k] == second[j][k]);
    }
    assert forall|k: Seq<char>| v.contains_key(k) implies u.contains_key(k) by {
        let j = choose|j: int| 0 <= j < second.len() && (#[trigger] second[j]).contains_key(k);
        assert(first.contains(second[j]));
        let i = choose|i: int| 0 <= i < first.len() && first[i] == second[j];
        assert(first[i].contains_key(k));
    }
    assert(u =~= v);
}

/// The index: a map from the path of each indexed file to its document. Its
/// view is that map, with each document as the multiset of its terms.
pub struct Index {
    entries: Vec<Entry>,
    positions: StringHashMap<usize>,
}

impl View for Index {
    type V = Map<Seq<char>, Multiset<Seq<char>>>;

    closed spec fn view(&self) -> Map<Seq<char>, Multiset<Seq<char>>> {
        Map::new(
            |path: Seq<char>| self.positions@.contains_key(path),
            |path: Seq<char>| self.entries@[self.positions@[path] as int].document@,
        )
    }
}

impl Index {
    /// The paths of the index, in the order in which they were first inserted.
    pub closed spec fn keys(&self) -> Seq<Seq<char>> {
        Seq::new(self.entries.len() as nat, |i: int| self.entries@[i].path@)
    }

    /// The documents of the index, in the order of `keys`.
    pub closed spec fn bags(&self) -> Seq<Multiset<Seq<char>>> {
        Seq::new(self.entries.len() as nat, |i: int| self.entries@[i].document@)
    }

    /// The paths of the index with the entries of their documents, in the
    /// order of `keys`.
    pub closed spec fn entries(&self) -> Seq<(Seq<char>, Seq<(Seq<char>, nat)>)> {
        Seq::new(
            self.entries.len() as nat,
            |i: int| (self.entries@[i].path@, self.entries@[i].document.entries()),
        )
    }

    /// The invariant of the representation: the lookup table and the list of
    /// entries describe each other, and every document is well formed.
    pub closed spec fn wf(&self) -> bool {
        &&& forall|i: int|
            #![trigger self.entries@[i]]
            0 <= i < self.entries.len() ==> self.entries@[i].document.wf()
                && self.positions@.contains_key(self.entries@[i].path@)
                && self.positions@[self.entries@[i].path@] == i
        &&& forall|k: Seq<char>| #[trigger]
            self.positions@.contains_key(k) ==> self.positions@[k] < self.entries.len()
                && self.entries@[self.positions@[k] as int].path@ == k
    }

    /// How the three listings of an index and its view belong together.
    pub proof fn lemma_listing(&self)
        requires
            self.wf(),
        ensures
            self.keys().len() == self.bags().len() == self.entries().len(),
            distinct(self.keys()),
            self@ == map_of(self.keys().zip_with(self.bags())),
            forall|i: int|
                0 <= i < self.keys().len() ==> self@.contains_key(#[trigger] self.keys()[i])
                    && self@[self.keys()[i]] == self.bags()[i],
            forall|k: Seq<char>| #[trigger]
                self@.contains_key(k) ==> exists|i: int|
                    0 <= i < self.keys().len() && #[trigger] self.keys()[i] == k,
            forall|i: int|
                0 <= i < self.keys().len() ==> (#[trigger] self.entries()[i]).0 == self.keys()[i],
    {
        let keys = self.keys();
        assert forall|i: int, j: int| 0 <= i < j < keys.len() implies keys[i] != keys[j] by {
            assert(self.positions@[self.entries@[i].path@] == i);
            assert(self.positions@[self.entries@[j].path@] == j);
        }
        assert forall|i: int| 0 <= i < keys.len() implies self@.contains_key(#[trigger] keys[i])
            && self@[keys[i]] == self.bags()[i] by {
            assert(self.positions@[self.entries@[i].path@] == i);
        }
        assert forall|k: Seq<char>| #[trigger] self@.contains_key(k) implies exists|i: int|
            0 <= i < keys.len() && #[trigger] keys[i] == k by {
            let i = self.positions@[k] as int;
            assert(keys[i] == k);
        }
        let pairs = keys.zip_with(self.bags());
        assert forall|i: int, j: int| 0 <= i < j < pairs.len() implies pairs[i].0
            != pairs[j].0 by {
            assert(pairs[i].0 == keys[i]);
            assert(pairs[j].0 == keys[j]);
        }
        lemma_map_of(pairs);
        assert forall|k: Seq<char>| self@.contains_key(k) == map_of(pairs).contains_key(k) by {
            if self@.contains_key(k) {
                let i = self.positions@[k] as int;
                assert(pairs[i].0 == k);
            }
            if map_of(pairs).contains_key(k) {
                let i = choose|i: int| 0 <= i < pairs.len() && #[trigger] pairs[i].0 == k;
                assert(keys[i] == k);
            }
        }
        assert forall|k: Seq<char>| self@.contains_key(k) implies self@[k] == map_of(pairs)[k] by {
            let i = self.positions@[k] as int;
            assert(pairs[i].0 == k);
            assert(pairs[i].1 == self.bags()[i]);
        }
        assert(self@ =~= map_of(pairs));
    }

    /// Two indexes with the same entries have the same view.
    pub proof fn lemma_entries_determine_view(&self, other: &Index)
        requires
            self.wf(),
            other.wf(),
            self.entries() == other.entries(),
        ensures
            self@ == other@,
    {
        self.lemma_listing();
        other.lemma_listing();
        assert(self.entries.len() == other.entries.len()) by {
            assert(self.entries().len() == other.entries().len());
        }
        assert forall|i: int| 0 <= i < self.keys().len() implies self.keys()[i] == other.keys()[i]
            && self.bags()[i] == other.bags()[i] by {
            assert(self.entries()[i] == other.entries()[i]);
            self.entries@[i].document.lemma_entries_determine_view(&other.entries@[i].document);
        }
        assert(self.keys() =~= other.keys());
        assert(self.bags() =~= other.bags());
    }

    /// An index without documents.
    pub fn new() -> (index: Self)
        ensures
            index.wf(),
            index@ == Map::<Seq<char>, Multiset<Seq<char>>>::empty(),
            index.keys() == Seq::<Seq<char>>::empty(),
            index.entries() == Seq::<(Seq<char>, Seq<(Seq<char>, nat)>)>::empty(),
    {
        let index = Index { entries: Vec::new(), positions: StringHashMap::new() };
        assert(index@ =~= Map::<Seq<char>, Multiset<Seq<char>>>::empty());
        assert(index.keys() =~= Seq::<Seq<char>>::empty());
        assert(index.entries() =~= Seq::<(Seq<char>, Seq<(Seq<char>, nat)>)>::empty());
        index
    }

    /// The number of documents.
    pub fn len(&self) -> (n: usize)
        requires
            self.wf(),
        ensures
            n == self.keys().len(),
            n == self@.len(),
    {
        proof {
            self.lemma_size();
        }
        self.entries.len()
    }

    /// An index holds as many documents as it lists paths.
    pub proof fn lemma_size(&self)
        requires
            self.wf(),
        ensures
            self@.dom().finite(),
            self@.len() == self.keys().len(),
    {
        self.lemma_listing();
        let keys = self.keys();
        keys.unique_seq_to_set();
        assert(self@.dom() =~= keys.to_set()) by {
            assert forall|k: Seq<char>| self@.dom().contains(k) == keys.to_set().contains(k) by {
                if self@.contains_key(k) {
                    let i = choose|i: int| 0 <= i < keys.len() && #[trigger] keys[i] == k;
                    assert(keys.contains(k));
                }
                if keys.contains(k) {
                    let i = choose|i: int| 0 <= i < keys.len() && keys[i] == k;
                    assert(self@.contains_key(keys[i]));
                }
            }
        }
    }

    /// Whether a document is kept under `path`.
    pub fn contains_path(&self, path: &str) -> (b: bool)
        requires
            self.wf(),
        ensures
            b == self@.contains_key(path@),
    {
        self.positions.contains_key(path)
    }

    /// The document kept under `path`, if there is one.
    pub fn get(&self, path: &str) -> (r: Option<&Document>)
        requires
            self.wf(),
        ensures
            match r {
                Some(doc) => self@.contains_key(path@) && doc@ == self@[path@] && doc.wf(),
                None => !self@.contains_key(path@),
            },
    {
        match self.positions.get(path) {
            Some(i) => Some(&self.entries[*i].document),
            None => None,
        }
    }

    /// The `i`-th path, in the order of first insertion.
    pub fn path_at(&self, i: usize) -> (path: &String)
        requires
            self.wf(),
            i < self.keys().len(),
        ensures
            path@ == self.keys()[i as int],
    {
        &self.entries[i].path
    }

    /// The document under the `i`-th path.
    pub fn document_at(&self, i: usize) -> (doc: &Document)
        requires
            self.wf(),
            i < self.keys().len(),
        ensures
            doc.wf(),
            doc@ == self.bags()[i as int],
            doc.entries() == self.entries()[i as int].1,
    {
        &self.entries[i].document
    }

    /// Keeps `doc` under `path`. A document that was kept under that path
    /// before is replaced.
    pub fn insert(&mut self, path: String, doc: Document)
        requires
            old(self).wf(),
            doc.wf(),
        ensures
            final(self).wf(),
            final(self)@ == old(self)@.insert(path@, doc@),
            !old(self)@.contains_key(path@) ==> {
                &&& final(self).keys() == old(self).keys().push(path@)
                &&& final(self).bags() == old(self).bags().push(doc@)
                &&& final(self).entries() == old(self).entries().push((path@, doc.entries()))
            },
    {
        let found = match self.positions.get(path.as_str()) {
            Some(i) => Some(*i),
            None => None,
        };
        match found {
            Some(i) => {
                self.entries.set(i, Entry { path, document: doc });
            },
            None => {
                let i = self.entries.len();
                self.positions.insert(path.clone(), i);
                self.entries.push(Entry { path, document: doc });
                proof {
                    assert(self.keys() =~= old(self).keys().push(path@));
                    assert(self.bags() =~= old(self).bags().push(doc@));
                    assert(self.entries() =~= old(self).entries().push((path@, doc.entries())));
                }
            },
        }
        proof {
            assert forall|i: int|
                #![trigger self.entries@[i]]
                0 <= i < self.entries.len() implies self.entries@[i].document.wf()
                && self.positions@.contains_key(self.entries@[i].path@)
                && self.positions@[self.entries@[i].path@] == i by {
                if i < old(self).entries.len() {
                    assert(old(self).positions@[old(self).entries@[i].path@] == i);
                }
            }
            assert(self@ =~= old(self)@.insert(path@, doc@));
        }
    }
    /// Takes over every document of `other`. Under a path that both hold, the
    /// document of `other` stays.
    pub fn merge(&mut self, other: Index)
        requires
            old(self).wf(),
            other.wf(),
        ensures
            final(self).wf(),
            final(self)@ == old(self)@.union_prefer_right(other@),
    {
        proof {
            other.lemma_listing();
        }
        let ghost pairs = other.keys().zip_with(other.bags());
        let ghost items = other.entries@;
        let entries = other.entries;
        proof {
            assert(pairs.take(0) =~= Seq::empty());
            assert(self@ =~= old(self)@.union_prefer_right(map_of(pairs.take(0))));
        }
        for entry in it: entries
            invariant
                it.seq() == items,
                pairs.len() == items.len(),
                forall|i: int|
                    0 <= i < items.len() ==> (#[trigger] items[i]).document.wf() && pairs[i] == (
                        items[i].path@,
                        items[i].document@,
                    ),
                self.wf(),
                self@ == old(self)@.union_prefer_right(map_of(pairs.take(it.index() as int))),
        {
            let ghost i = it.index() as int;
            let ghost before = self@;
            proof {
                assert(pairs.take(i + 1).drop_last() =~= pairs.take(i));
                assert(pairs.take(i + 1).last() == pairs[i]);
                assert(items[i] == entry);
            }
            self.insert(entry.path, entry.document);
            assert(self@ =~= old(self)@.union_prefer_right(map_of(pairs.take(i + 1))));
        }
        proof {
            assert(pairs.take(pairs.len() as int) =~= pairs);
        }
    }

    /// Keeps what the analysis of a file gave: a document goes into the index
    /// under its path, and an error is handed on and leaves the index as it
    /// was.
    pub fn insert_analyzed(&mut self, analyzed: Result<(String, Document), ExtractError>) -> (r:
        Result<(), ExtractError>)
        requires
            old(self).wf(),
            analyzed matches Ok((key, doc)) ==> doc.wf(),
        ensures
            final(self).wf(),
            match analyzed {
                Ok((key, doc)) => r is Ok && final(self)@ == old(self)@.insert(key@, doc@),
                Err(e) => r == Err::<(), ExtractError>(e) && final(self)@ == old(self)@
                    && final(self).entries() == old(self).entries(),
            },
    {
        match analyzed {
            Ok((key, doc)) => {
                self.insert(key, doc);
                Ok(())
            },
            Err(e) => Err(e),
        }
    }

    /// Indexes one file from its path and contents and keeps the document
    /// under the path. An XML file is kept with the terms of its text. A file
    /// that gives no document leaves the index as it was: one without an
    /// extension or with one that is not indexed, and a PDF that does not
    /// load, reports itself encrypted or has pages that cannot be read.
    pub fn add_file(&mut self, path: &str, bytes: &[u8]) -> (r: Result<(), ExtractError>)
        requires
            old(self).wf(),
        ensures
            final(self).wf(),
            match kind_of_path(path@) {
                None => r == Err::<(), ExtractError>(ExtractError::Unsupported),
                Some(FileType::Xml) => r is Ok && final(self)@ == old(self)@.insert(
                    path@,
                    xml_terms(bytes@),
                ),
                Some(FileType::Pdf) => match pdf_refusal(bytes@) {
                    Some(e) => r == Err::<(), ExtractError>(e),
                    None => r is Ok || r == Err::<(), ExtractError>(ExtractError::Corrupt),
                },
            },
            r is Ok ==> exists|bag: Multiset<Seq<char>>| #[trigger]
                old(self)@.insert(path@, bag) == final(self)@,
            r is Err ==> final(self)@ == old(self)@ && final(self).entries() == old(
                self,
            ).entries(),
            !path@.contains('.') ==> kind_of_path(path@) is None,
    {
        let analyzed = analyze_file(path, bytes);
        let ghost bag = match &analyzed {
            Ok((_, doc)) => doc@,
            Err(_) => Multiset::empty(),
        };
        let r = self.insert_analyzed(analyzed);
        proof {
            if r is Ok {
                assert(old(self)@.insert(path@, bag) == self@);
            }
        }
        r
    }
}

/// The views of a list of indexes.
pub open spec fn views_of(parts: Seq<Index>) -> Seq<Map<Seq<char>, Multiset<Seq<char>>>> {
    parts.map_values(|part: Index| part@)
}

/// Merges partial indexes into one, from first to last.
pub fn merge_all(parts: Vec<Index>) -> (index: Index)
    requires
        forall|i: int| 0 <= i < parts.len() ==> (#[trigger] parts[i]).wf(),
    ensures
        index.wf(),
        index@ == union_all(views_of(parts@)),
{
    let mut index = Index::new();
    let ghost all = parts@;
    proof {
        assert(views_of(all).take(0) =~= Seq::empty());
    }
    for part in it: parts
        invariant
            it.seq() == all,
            forall|i: int| 0 <= i < all.len() ==> (#[trigger] all[i]).wf(),
            index.wf(),
            index@ == union_all(views_of(all).take(it.index() as int)),
    {
        let ghost i = it.index() as int;
        proof {
            let views = views_of(all);
            assert(views.take(i + 1).drop_last() =~= views.take(i));
            assert(views.take(i + 1).last() == all[i]@);
            assert(all[i] == part);
        }
        index.merge(part);
    }
    proof {
        assert(views_of(all).take(all.len() as int) =~= views_of(all));
    }
    index
}

} // verus!
