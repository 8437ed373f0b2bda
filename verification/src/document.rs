//! A document as the index sees it: how often each term occurs in it.

use vstd::hash_map::StringHashMap;
use vstd::multiset::Multiset;
use vstd::prelude::*;

verus! {

/// The multiset that holds `n` copies of `term` and nothing else.
pub open spec fn copies(term: Seq<char>, n: nat) -> Multiset<Seq<char>>
    decreases n,
{
    if n == 0 {
        Multiset::empty()
    } else {
        copies(term, (n - 1) as nat).insert(term)
    }
}

/// `copies(term, n)` has `n` elements, all of them `term`.
pub proof fn lemma_copies(term: Seq<char>, n: nat)
    ensures
        copies(term, n).len() == n,
        copies(term, n).count(term) == n,
        forall|other: Seq<char>| other != term ==> copies(term, n).count(other) == 0,
    decreases n,
{
    broadcast use vstd::multiset::group_multiset_axioms;

    if n > 0 {
        lemma_copies(term, (n - 1) as nat);
    }
}

/// The sum of the counts of a list of entries.
pub open spec fn total_count(entries: Seq<(Seq<char>, nat)>) -> nat
    decreases entries.len(),
{
    if entries.len() == 0 {
        0
    } else {
        total_count(entries.drop_last()) + entries.last().1
    }
}

/// Raising one count by `more` raises the sum by as much.
pub proof fn lemma_total_count_update(entries: Seq<(Seq<char>, nat)>, i: int, more: nat)
    requires
        0 <= i < entries.len(),
    ensures
        total_count(entries.update(i, (entries[i].0, entries[i].1 + more))) == total_count(entries)
            + more,
    decreases entries.len(),
{
    let raised = entries.update(i, (entries[i].0, entries[i].1 + more));
    if i == entries.len() - 1 {
        assert(raised.drop_last() =~= entries.drop_last());
    } else {
        lemma_total_count_update(entries.drop_last(), i, more);
        assert(raised.drop_last() =~= entries.drop_last().update(
            i,
            (entries[i].0, entries[i].1 + more),
        ));
    }
}

/// A list of entries whose counts are all positive is no longer than the sum
/// of its counts.
pub proof fn lemma_length_within_total(entries: Seq<(Seq<char>, nat)>)
    requires
        forall|i: int| 0 <= i < entries.len() ==> (#[trigger] entries[i]).1 > 0,
    ensures
        entries.len() <= total_count(entries),
    decreases entries.len(),
{
    if entries.len() > 0 {
        let front = entries.drop_last();
        assert forall|i: int| 0 <= i < front.len() implies (#[trigger] front[i]).1 > 0 by {
            assert(front[i] == entries[i]);
        }
        lemma_length_within_total(front);
        assert(entries[entries.len() - 1].1 > 0);
    }
}

/// The counts of the first entries sum to no more than the counts of all.
pub proof fn lemma_total_count_prefix(entries: Seq<(Seq<char>, nat)>, k: int)
    requires
        0 <= k <= entries.len(),
    ensures
        total_count(entries.take(k)) <= total_count(entries),
    decreases entries.len(),
{
    if k == entries.len() {
        assert(entries.take(k) =~= entries);
    } else {
        lemma_total_count_prefix(entries.drop_last(), k);
        assert(entries.take(k) =~= entries.drop_last().take(k));
    }
}

/// What holds of the entries of every document: no term is listed twice and
/// every listed term occurs at least once.
pub open spec fn valid_entries(entries: Seq<(Seq<char>, nat)>) -> bool {
    &&& forall|i: int, j: int|
        0 <= i < j < entries.len() ==> (#[trigger] entries[i]).0 != (#[trigger] entries[j]).0
    &&& forall|i: int| 0 <= i < entries.len() ==> (#[trigger] entries[i]).1 > 0
}

/// The term counts of one document. Its view is the multiset of its terms:
/// a term that was counted three times occurs three times in it.
pub struct Document {
    terms: Vec<String>,
    counts: Vec<usize>,
    positions: StringHashMap<usize>,
    total: usize,
    bag: Ghost<Multiset<Seq<char>>>,
}

impl View for Document {
    type V = Multiset<Seq<char>>;

    closed spec fn view(&self) -> Multiset<Seq<char>> {
        self.bag@
    }
}

impl Document {
    /// The distinct terms with their counts, in the order in which each term
    /// was first seen.
    pub closed spec fn entries(&self) -> Seq<(Seq<char>, nat)> {
        Seq::new(self.terms.len() as nat, |i: int| (self.terms[i]@, self.counts[i] as nat))
    }

    /// The count that the table holds for a term.
    spec fn listed(&self, term: Seq<char>) -> nat {
        if self.positions@.contains_key(term) {
            self.counts[self.positions@[term] as int] as nat
        } else {
            0
        }
    }

    /// The invariant of the representation: the lookup table and the term list
    /// describe each other, and the counts are those of the view.
    pub closed spec fn wf(&self) -> bool {
        &&& self.terms.len() == self.counts.len()
        &&& forall|i: int|
            #![trigger self.terms@[i]]
            0 <= i < self.terms.len() ==> self.positions@.contains_key(self.terms@[i]@)
                && self.positions@[self.terms@[i]@] == i
        &&& forall|k: Seq<char>| #[trigger]
            self.positions@.contains_key(k) ==> self.positions@[k] < self.terms.len()
                && self.terms@[self.positions@[k] as int]@ == k
        &&& forall|i: int| 0 <= i < self.counts.len() ==> #[trigger] self.counts@[i] > 0
        &&& forall|k: Seq<char>| #[trigger] self.bag@.count(k) == self.listed(k)
        &&& self.bag@.len() == self.total
        &&& total_count(self.entries()) == self.total
    }

    /// The entries of a document are valid and list exactly the terms of its
    /// view, each with the number of times it occurs.
    pub proof fn lemma_entries(&self)
        requires
            self.wf(),
        ensures
            valid_entries(self.entries()),
            forall|i: int|
                0 <= i < self.entries().len() ==> self@.count((#[trigger] self.entries()[i]).0)
                    == self.entries()[i].1,
            forall|k: Seq<char>|
                self@.count(k) > 0 ==> exists|i: int|
                    0 <= i < self.entries().len() && (#[trigger] self.entries()[i]).0 == k,
            forall|i: int|
                0 <= i < self.entries().len() ==> (#[trigger] self.entries()[i]).1 <= usize::MAX,
            total_count(self.entries()) == self@.len(),
            self@.len() <= usize::MAX,
            self.entries().len() <= usize::MAX,
    {
        let e = self.entries();
        assert forall|i: int, j: int| 0 <= i < j < e.len() implies (#[trigger] e[i]).0 != (
        #[trigger] e[j]).0 by {
            assert(self.positions@[self.terms@[i]@] == i);
            assert(self.positions@[self.terms@[j]@] == j);
        }
        assert forall|i: int| 0 <= i < e.len() implies (#[trigger] e[i]).1 > 0 by {
            assert(self.counts@[i] > 0);
        }
        assert forall|i: int| 0 <= i < e.len() implies self@.count((#[trigger] e[i]).0)
            == e[i].1 by {
            assert(self.positions@[self.terms@[i]@] == i);
            assert(self.bag@.count(self.terms@[i]@) == self.listed(self.terms@[i]@));
        }
        assert forall|k: Seq<char>| self@.count(k) > 0 implies exists|i: int|
            0 <= i < e.len() && (#[trigger] e[i]).0 == k by {
            assert(self.bag@.count(k) == self.listed(k));
            assert(self.positions@.contains_key(k));
            let i = self.positions@[k] as int;
            assert(e[i].0 == k);
        }
    }

    /// Two documents with the same entries have the same view.
    pub proof fn lemma_entries_determine_view(&self, other: &Document)
        requires
            self.wf(),
            other.wf(),
            self.entries() == other.entries(),
        ensures
            self@ == other@,
    {
        self.lemma_entries();
        other.lemma_entries();
        assert forall|k: Seq<char>| self@.count(k) == other@.count(k) by {
            if self@.count(k) > 0 {
                let i = choose|i: int|
                    0 <= i < self.entries().len() && (#[trigger] self.entries()[i]).0 == k;
                assert(other.entries()[i].0 == k);
            } else if other@.count(k) > 0 {
                let i = choose|i: int|
                    0 <= i < other.entries().len() && (#[trigger] other.entries()[i]).0 == k;
                assert(self.entries()[i].0 == k);
            }
        }
        assert(self@ =~= other@);
    }

    /// A document without any term.
    pub fn new() -> (doc: Self)
        ensures
            doc.wf(),
            doc@ == Multiset::<Seq<char>>::empty(),
            doc.entries() == Seq::<(Seq<char>, nat)>::empty(),
    {
        broadcast use vstd::multiset::group_multiset_axioms;

        let doc = Document {
            terms: Vec::new(),
            counts: Vec::new(),
            positions: StringHashMap::new(),
            total: 0,
            bag: Ghost(Multiset::empty()),
        };
        assert(doc.entries() =~= Seq::<(Seq<char>, nat)>::empty());
        doc
    }

    /// Counts one more occurrence of `term`.
    pub fn add_term(&mut self, term: String)
        requires
            old(self).wf(),
            old(self)@.len() < usize::MAX,
        ensures
            final(self).wf(),
            final(self)@ == old(self)@.insert(term@),
    {
        broadcast use vstd::multiset::group_multiset_axioms;

        let found = match self.positions.get(term.as_str()) {
            Some(i) => Some(*i),
            None => None,
        };
        match found {
            Some(i) => {
                let c = self.counts[i];
                assert(self.bag@.count(term@) == self.listed(term@));
                self.counts.set(i, c + 1);
                proof {
                    let before = old(self).entries();
                    lemma_total_count_update(before, i as int, 1);
                    assert(self.entries() =~= before.update(
                        i as int,
                        (before[i as int].0, before[i as int].1 + 1),
                    ));
                }
            },
            None => {
                let i = self.terms.len();
                self.positions.insert(term.clone(), i);
                self.terms.push(term);
                self.counts.push(1);
                proof {
                    let after = old(self).entries().push((term@, 1nat));
                    assert(self.entries() =~= after);
                    assert(after.drop_last() =~= old(self).entries());
                }
            },
        }
        self.total = self.total + 1;
        self.bag = Ghost(self.bag@.insert(term@));
        proof {
            assert forall|k: Seq<char>| #[trigger]
                self.bag@.count(k) == self.listed(k) by {
                assert(old(self).bag@.count(k) == old(self).listed(k));
            }
        }
    }

    /// How often `term` occurs in the document.
    pub fn count(&self, term: &str) -> (n: usize)
        requires
            self.wf(),
        ensures
            n == self@.count(term@),
    {
        proof {
            assert(self.bag@.count(term@) == self.listed(term@));
        }
        match self.positions.get(term) {
            Some(i) => self.counts[*i],
            None => 0,
        }
    }

    /// Whether `term` occurs in the document.
    pub fn contains_term(&self, term: &str) -> (b: bool)
        requires
            self.wf(),
        ensures
            b == self@.contains(term@),
    {
        proof {
            assert(self.bag@.count(term@) == self.listed(term@));
            if self.positions@.contains_key(term@) {
                assert(self.counts@[self.positions@[term@] as int] > 0);
            }
        }
        self.positions.contains_key(term)
    }

    /// The number of term occurrences in the document, repeats included.
    pub fn total_term_count(&self) -> (n: usize)
        requires
            self.wf(),
        ensures
            n == self@.len(),
    {
        self.total
    }

    /// The number of distinct terms.
    pub fn len(&self) -> (n: usize)
        requires
            self.wf(),
        ensures
            n == self.entries().len(),
    {
        self.terms.len()
    }

    /// The `i`-th distinct term, in first-seen order.
    pub fn term_at(&self, i: usize) -> (term: &String)
        requires
            self.wf(),
            i < self.entries().len(),
        ensures
            term@ == self.entries()[i as int].0,
    {
        &self.terms[i]
    }

    /// The count of the `i`-th distinct term.
    pub fn count_at(&self, i: usize) -> (n: usize)
        requires
            self.wf(),
            i < self.entries().len(),
        ensures
            n == self.entries()[i as int].1,
    {
        self.counts[i]
    }

    /// Lists `term` with `count` occurrences, if the document does not list it
    /// yet, the count is positive and the total stays within `usize`. Returns
    /// whether it did; the document is unchanged where it did not.
    pub fn add_entry(&mut self, term: String, count: usize) -> (added: bool)
        requires
            old(self).wf(),
        ensures
            final(self).wf(),
            added <==> !old(self)@.contains(term@) && count > 0 && old(self)@.len() + count
                <= usize::MAX,
            added ==> final(self)@ == old(self)@.add(copies(term@, count as nat)),
            added ==> final(self).entries() == old(self).entries().push((term@, count as nat)),
            !added ==> *final(self) == *old(self),
    {
        broadcast use vstd::multiset::group_multiset_axioms;

        proof {
            assert(self.bag@.count(term@) == self.listed(term@));
            if self.positions@.contains_key(term@) {
                assert(self.counts@[self.positions@[term@] as int] > 0);
            }
        }
        if count == 0 || self.positions.contains_key(term.as_str()) || count > usize::MAX
            - self.total {
            return false;
        }
        let i = self.terms.len();
        self.positions.insert(term.clone(), i);
        self.terms.push(term);
        self.counts.push(count);
        self.total = self.total + count;
        self.bag = Ghost(self.bag@.add(copies(term@, count as nat)));
        proof {
            lemma_copies(term@, count as nat);
            assert forall|k: Seq<char>| #[trigger]
                self.bag@.count(k) == self.listed(k) by {
                assert(old(self).bag@.count(k) == old(self).listed(k));
            }
            let after = old(self).entries().push((term@, count as nat));
            assert(self.entries() =~= after);
            assert(after.drop_last() =~= old(self).entries());
        }
        true
    }
}

} // verus!
