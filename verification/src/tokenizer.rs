//! Splitting text into words and counting their normalized forms.

use crate::document::Document;
use crate::text::{
    alphanumeric, english_stem, is_alphanumeric, is_whitespace, lowercase, push_char,
    stem_english, to_lowercase, whitespace,
};
use vstd::multiset::Multiset;
use vstd::prelude::*;
use vstd::string::*;

verus! {

/// The characters that words are made of: letters, digits, the apostrophe
/// and the hyphen.
pub open spec fn is_word_char(c: char) -> bool {
    alphanumeric(c) || c == '\'' || c == '-'
}

/// The word that is still open at the end of `text`: its longest suffix of
/// word characters.
pub open spec fn open_word(text: Seq<char>) -> Seq<char>
    decreases text.len(),
{
    if text.len() == 0 {
        Seq::empty()
    } else if is_word_char(text.last()) {
        open_word(text.drop_last()).push(text.last())
    } else {
        Seq::empty()
    }
}

/// A word as a list of tokens: none if it is empty, else the word itself.
pub open spec fn word_token(word: Seq<char>) -> Seq<Seq<char>> {
    if word.len() == 0 {
        Seq::empty()
    } else {
        seq![word]
    }
}

/// A character that ends a word as a list of tokens: none for whitespace,
/// else the character as a token of its own.
pub open spec fn separator_token(c: char) -> Seq<Seq<char>> {
    if whitespace(c) {
        Seq::empty()
    } else {
        seq![seq![c]]
    }
}

/// The tokens of `text` that are closed at its end: every maximal run of
/// word characters that a further character follows, and every character
/// that is neither a word character nor whitespace, in text order.
pub open spec fn closed_tokens(text: Seq<char>) -> Seq<Seq<char>>
    decreases text.len(),
{
    if text.len() == 0 {
        Seq::empty()
    } else if is_word_char(text.last()) {
        closed_tokens(text.drop_last())
    } else {
        closed_tokens(text.drop_last()) + word_token(open_word(text.drop_last()))
            + separator_token(text.last())
    }
}

/// The tokens of `text`: its maximal runs of word characters and each of its
/// other characters that is not whitespace, in text order.
pub open spec fn tokens(text: Seq<char>) -> Seq<Seq<char>> {
    closed_tokens(text) + word_token(open_word(text))
}

/// The term that a token is counted under: the English stem of its
/// lower-case form.
pub open spec fn normalized(token: Seq<char>) -> Seq<char> {
    english_stem(lowercase(token))
}

/// The terms of `text`: its tokens, each normalized, in text order.
pub open spec fn terms(text: Seq<char>) -> Seq<Seq<char>> {
    tokens(text).map_values(|t: Seq<char>| normalized(t))
}

/// The term that a raw word is counted under.
pub fn normalize_term(word: &str) -> (term: String)
    ensures
        term@ == normalized(word@),
{
    let lower = to_lowercase(word);
    stem_english(lower.as_str())
}

/// A text has at most as many characters as its UTF-8 form has bytes.
proof fn lemma_chars_within_bytes(chars: Seq<char>)
    ensures
        chars.len() <= vstd::utf8::encode_utf8(chars).len(),
    decreases chars.len(),
{
    if chars.len() > 0 {
        lemma_chars_within_bytes(chars.drop_first());
    }
}

/// The first `i + 1` characters of a text are its first `i` and then the
/// one at `i`.
proof fn lemma_tokens_step(text: Seq<char>, i: int)
    requires
        0 <= i < text.len(),
    ensures
        text.take(i + 1).drop_last() == text.take(i),
        text.take(i + 1).last() == text[i],
{
    assert(text.take(i + 1).drop_last() =~= text.take(i));
}

/// The multiset of the terms of a list of tokens.
pub open spec fn term_bag(tokens: Seq<Seq<char>>) -> Multiset<Seq<char>> {
    tokens.map_values(|t: Seq<char>| normalized(t)).to_multiset()
}

/// The terms of two lists of tokens, one after the other.
proof fn lemma_term_bag_concat(a: Seq<Seq<char>>, b: Seq<Seq<char>>)
    ensures
        term_bag(a + b) == term_bag(a).add(term_bag(b)),
{
    let f = |t: Seq<char>| normalized(t);
    assert((a + b).map_values(f) =~= a.map_values(f) + b.map_values(f));
    vstd::seq_lib::lemma_multiset_commutative(a.map_values(f), b.map_values(f));
}

/// The terms of no tokens, and of a single one.
proof fn lemma_term_bag_small(token: Seq<char>)
    ensures
        term_bag(Seq::empty()) == Multiset::<Seq<char>>::empty(),
        term_bag(seq![token]) == Multiset::<Seq<char>>::empty().insert(normalized(token)),
{
    broadcast use vstd::multiset::group_multiset_axioms;
    broadcast use vstd::seq_lib::group_to_multiset_ensures;

    let f = |t: Seq<char>| normalized(t);
    assert(Seq::<Seq<char>>::empty().map_values(f) =~= Seq::empty());
    assert(Seq::<Seq<char>>::empty().to_multiset() =~= Multiset::empty());
    assert(seq![token].map_values(f) =~= Seq::<Seq<char>>::empty().push(normalized(token)));
    assert(term_bag(Seq::empty()) =~= Multiset::<Seq<char>>::empty());
    assert(term_bag(seq![token]) =~= Multiset::<Seq<char>>::empty().insert(normalized(token)));
}

/// Counts `word` in `doc` under its term, unless it is empty.
fn count_word(doc: &mut Document, word: &str)
    requires
        old(doc).wf(),
        old(doc)@.len() + word_token(word@).len() <= usize::MAX,
    ensures
        final(doc).wf(),
        final(doc)@ == old(doc)@.add(term_bag(word_token(word@))),
        final(doc)@.len() == old(doc)@.len() + word_token(word@).len(),
{
    broadcast use vstd::multiset::group_multiset_axioms;

    proof {
        lemma_term_bag_small(word@);
    }
    if word.is_empty() {
        assert(doc@.add(Multiset::empty()) =~= doc@);
    } else {
        let term = normalize_term(word);
        doc.add_term(term);
        assert(doc@ =~= old(doc)@.add(term_bag(word_token(word@))));
    }
}

/// Builds the term counts of a text. The text is cut into its maximal runs of
/// letters, digits, apostrophes and hyphens; every other character that is not
/// whitespace is a token of its own. Each token is counted under the English
/// stem of its lower-case form.
pub fn create_document_from_text(text: &str) -> (doc: Document)
    ensures
        doc.wf(),
        doc@ == terms(text@).to_multiset(),
{
    broadcast use vstd::multiset::group_multiset_axioms;

    let bytes = text.as_bytes();
    let ghost byte_count: usize = bytes.len();
    proof {
        lemma_chars_within_bytes(text@);
    }
    let mut doc = Document::new();
    let mut current_word = String::new();
    proof {
        assert(text@.take(0) =~= Seq::<char>::empty());
        lemma_term_bag_small(Seq::empty());
    }
    for c in it: text.chars()
        invariant
            it.seq() == text@,
            text@.len() <= usize::MAX,
            doc.wf(),
            doc@ == term_bag(closed_tokens(text@.take(it.index() as int))),
            current_word@ == open_word(text@.take(it.index() as int)),
            doc@.len() + current_word@.len() <= it.index(),
    {
        let ghost i = it.index() as int;
        proof {
            lemma_tokens_step(text@, i);
        }
        if is_alphanumeric(c) || c == '\'' || c == '-' {
            push_char(&mut current_word, c);
        } else {
            let ghost before = doc@;
            count_word(&mut doc, current_word.as_str());
            let ghost middle = doc@;
            current_word = String::new();
            if !is_whitespace(c) {
                let mut single = String::new();
                push_char(&mut single, c);
                assert(single@ =~= seq![c]);
                count_word(&mut doc, single.as_str());
            }
            proof {
                let prefix = text@.take(i);
                let word = word_token(open_word(prefix));
                let sep = separator_token(c);
                lemma_term_bag_concat(closed_tokens(prefix), word);
                lemma_term_bag_concat(closed_tokens(prefix) + word, sep);
                lemma_term_bag_small(seq![c]);
                assert(doc@ =~= middle.add(term_bag(sep))) by {
                    if whitespace(c) {
                        assert(middle.add(Multiset::empty()) =~= middle);
                    }
                }
                assert(doc@ =~= term_bag(closed_tokens(text@.take(i + 1))));
            }
        }
    }
    proof {
        assert(text@.take(text@.len() as int) =~= text@);
        lemma_term_bag_concat(closed_tokens(text@), word_token(open_word(text@)));
    }
    count_word(&mut doc, current_word.as_str());
    doc
}

/// Whether a term has the shape of a token: a run of word characters, or one
/// character that is neither a word character nor whitespace.
pub open spec fn is_token(term: Seq<char>) -> bool {
    ||| term.len() > 0 && forall|i: int| 0 <= i < term.len() ==> is_word_char(term[i])
    ||| term.len() == 1 && !is_word_char(term[0]) && !whitespace(term[0])
}

/// The terms written one after the other, each followed by `gap`.
pub open spec fn spaced(terms: Seq<Seq<char>>, gap: char) -> Seq<char>
    decreases terms.len(),
{
    if terms.len() == 0 {
        Seq::empty()
    } else {
        spaced(terms.drop_last(), gap) + terms.last() + seq![gap]
    }
}

/// A run of word characters behind a text without an open word is the open
/// word of the whole, and closes no token.
proof fn lemma_word_stays_open(text: Seq<char>, word: Seq<char>)
    requires
        open_word(text).len() == 0,
        forall|i: int| 0 <= i < word.len() ==> is_word_char(word[i]),
    ensures
        open_word(text + word) == word,
        closed_tokens(text + word) == closed_tokens(text),
    decreases word.len(),
{
    if word.len() == 0 {
        assert(text + word =~= text);
        assert(open_word(text) =~= word);
    } else {
        let front = word.drop_last();
        assert((text + word).drop_last() =~= text + front);
        assert((text + word).last() == word.last());
        assert(is_word_char(word[word.len() - 1]));
        assert forall|i: int| 0 <= i < front.len() implies is_word_char(front[i]) by {
            assert(front[i] == word[i]);
        }
        lemma_word_stays_open(text, front);
        assert(front.push(word.last()) =~= word);
    }
}

/// A character that is no word character closes the open word and leaves
/// none open.
proof fn lemma_separator_closes(text: Seq<char>, c: char)
    requires
        !is_word_char(c),
    ensures
        open_word(text + seq![c]).len() == 0,
        closed_tokens(text + seq![c]) == closed_tokens(text) + word_token(open_word(text))
            + separator_token(c),
{
    assert((text + seq![c]).drop_last() =~= text);
    assert((text + seq![c]).last() == c);
}

/// The tokens of terms that are written with a gap after each are the terms.
proof fn lemma_tokens_of_spaced(terms: Seq<Seq<char>>, gap: char)
    requires
        whitespace(gap),
        !is_word_char(gap),
        forall|i: int| 0 <= i < terms.len() ==> is_token(#[trigger] terms[i]),
    ensures
        closed_tokens(spaced(terms, gap)) == terms,
        open_word(spaced(terms, gap)).len() == 0,
    decreases terms.len(),
{
    if terms.len() == 0 {
        assert(closed_tokens(spaced(terms, gap)) =~= terms);
    } else {
        let front = terms.drop_last();
        let term = terms.last();
        let before = spaced(front, gap);
        assert forall|i: int| 0 <= i < front.len() implies is_token(#[trigger] front[i]) by {
            assert(front[i] == terms[i]);
        }
        lemma_tokens_of_spaced(front, gap);
        assert(is_token(terms[terms.len() - 1]));
        if term.len() > 0 && forall|i: int| 0 <= i < term.len() ==> is_word_char(term[i]) {
            lemma_word_stays_open(before, term);
            lemma_separator_closes(before + term, gap);
            assert(closed_tokens(before + term + seq![gap]) =~= front + seq![term]);
        } else {
            let c = term[0];
            assert(term =~= seq![c]);
            lemma_separator_closes(before, c);
            lemma_separator_closes(before + seq![c], gap);
            assert(open_word(before) =~= Seq::<char>::empty());
            assert(closed_tokens(before + seq![c] + seq![gap]) =~= front + seq![term]);
        }
        assert(front + seq![term] =~= terms);
    }
}

/// Tokenizing the terms of a document gives the same terms again. The terms
/// are written one after the other with a gap of whitespace after each. What
/// is asked of each term is that it has the shape of a token and is its own
/// normal form, which is what stability of stemming under stemming again
/// means.
pub proof fn lemma_terms_of_own_terms(own: Seq<Seq<char>>, gap: char)
    requires
        whitespace(gap),
        !is_word_char(gap),
        forall|i: int| 0 <= i < own.len() ==> is_token(#[trigger] own[i]) && normalized(own[i]) == own[i],
    ensures
        terms(spaced(own, gap)) == own,
        terms(spaced(own, gap)).to_multiset() == own.to_multiset(),
{
    lemma_tokens_of_spaced(own, gap);
    let text = spaced(own, gap);
    assert(word_token(open_word(text)) =~= Seq::<Seq<char>>::empty());
    assert(tokens(text) =~= own);
    assert(terms(text) =~= own);
}

} // verus!
