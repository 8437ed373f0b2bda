//! The stored form of an index: a sequence of bytes that holds every path,
//! term and count, and from which the index is read back unchanged.
//!
//! A number is written as eight bytes, least significant first. A text is
//! written as the number of its UTF-8 bytes and then those bytes. A document
//! is written as its path, the number of its distinct terms, and each term
//! with its count. An index is written as the number of its documents and
//! then the documents.

use crate::document::{
    lemma_length_within_total, lemma_total_count_prefix, total_count, valid_entries, Document,
};
use crate::index::Index;
use crate::text::text_from_utf8;
use vstd::bytes::{spec_u64_from_le_bytes, spec_u64_to_le_bytes, u64_from_le_bytes, u64_to_le_bytes};
use vstd::prelude::*;
use vstd::slice::slice_subrange;
use vstd::utf8::{decode_utf8, encode_utf8, valid_utf8};

verus! {

/// A number as it is stored.
pub open spec fn encode_number(n: nat) -> Seq<u8> {
    spec_u64_to_le_bytes(n as u64)
}

/// A text as it is stored.
pub open spec fn encode_text(text: Seq<char>) -> Seq<u8> {
    encode_number(encode_utf8(text).len()) + encode_utf8(text)
}

/// A term with its count as it is stored.
pub open spec fn encode_term(entry: (Seq<char>, nat)) -> Seq<u8> {
    encode_text(entry.0) + encode_number(entry.1)
}

/// A list of terms with their counts as it is stored, without its length.
pub open spec fn encode_terms(entries: Seq<(Seq<char>, nat)>) -> Seq<u8>
    decreases entries.len(),
{
    if entries.len() == 0 {
        Seq::empty()
    } else {
        encode_term(entries.first()) + encode_terms(entries.drop_first())
    }
}

/// A document with its path as it is stored.
pub open spec fn encode_document(document: (Seq<char>, Seq<(Seq<char>, nat)>)) -> Seq<u8> {
    encode_text(document.0) + encode_number(document.1.len()) + encode_terms(document.1)
}

/// A list of documents as it is stored, without its length.
pub open spec fn encode_documents(documents: Seq<(Seq<char>, Seq<(Seq<char>, nat)>)>) -> Seq<u8>
    decreases documents.len(),
{
    if documents.len() == 0 {
        Seq::empty()
    } else {
        encode_document(documents.first()) + encode_documents(documents.drop_first())
    }
}

/// An index as it is stored.
pub open spec fn encode_entries(documents: Seq<(Seq<char>, Seq<(Seq<char>, nat)>)>) -> Seq<u8> {
    encode_number(documents.len()) + encode_documents(documents)
}

/// Whether a list of terms lists `term`.
pub open spec fn lists_term(entries: Seq<(Seq<char>, nat)>, term: Seq<char>) -> bool {
    exists|i: int| 0 <= i < entries.len() && (#[trigger] entries[i]).0 == term
}

/// Whether a list of documents holds one under `path`.
pub open spec fn lists_path(
    documents: Seq<(Seq<char>, Seq<(Seq<char>, nat)>)>,
    path: Seq<char>,
) -> bool {
    exists|i: int| 0 <= i < documents.len() && (#[trigger] documents[i]).0 == path
}

/// The terms that a document can hold and a store can keep: no term twice,
/// every count positive, and the counts, their sum and the length of each
/// term within the machine's limits.
pub open spec fn storable_terms(entries: Seq<(Seq<char>, nat)>) -> bool {
    &&& valid_entries(entries)
    &&& total_count(entries) <= usize::MAX
    &&& entries.len() <= usize::MAX
    &&& forall|i: int|
        0 <= i < entries.len() ==> encode_utf8((#[trigger] entries[i]).0).len() <= usize::MAX
}

/// The documents that an index can hold and a store can keep: no path twice,
/// every document storable, and the number of documents and the length of
/// each path within the machine's limits.
pub open spec fn storable(documents: Seq<(Seq<char>, Seq<(Seq<char>, nat)>)>) -> bool {
    &&& forall|i: int, j: int|
        0 <= i < j < documents.len() ==> (#[trigger] documents[i]).0 != (#[trigger] documents[j]).0
    &&& documents.len() <= usize::MAX
    &&& forall|i: int|
        0 <= i < documents.len() ==> storable_terms((#[trigger] documents[i]).1) && encode_utf8(
            documents[i].0,
        ).len() <= usize::MAX
}

/// Reads a number from the front of the bytes: the number and the bytes that
/// follow it.
pub open spec fn parse_number(bytes: Seq<u8>) -> Option<(nat, Seq<u8>)> {
    if bytes.len() < 8 {
        None
    } else {
        Some((spec_u64_from_le_bytes(bytes.take(8)) as nat, bytes.skip(8)))
    }
}

/// Reads a text from the front of the bytes.
pub open spec fn parse_text(bytes: Seq<u8>) -> Option<(Seq<char>, Seq<u8>)> {
    match parse_number(bytes) {
        None => None,
        Some((n, rest)) => if n <= rest.len() && n <= usize::MAX && valid_utf8(
            rest.take(n as int),
        ) {
            Some((decode_utf8(rest.take(n as int)), rest.skip(n as int)))
        } else {
            None
        },
    }
}

/// Reads `n` more terms with their counts behind the ones in `done`. A term
/// that is listed already, a count of zero and a sum of counts beyond the
/// machine's limit are refused.
pub open spec fn parse_terms(bytes: Seq<u8>, n: nat, done: Seq<(Seq<char>, nat)>) -> Option<
    (Seq<(Seq<char>, nat)>, Seq<u8>),
>
    decreases n,
{
    if n == 0 {
        Some((done, bytes))
    } else {
        match parse_text(bytes) {
            None => None,
            Some((term, rest)) => match parse_number(rest) {
                None => None,
                Some((count, rest)) => if count > 0 && !lists_term(done, term) && total_count(done)
                    + count <= usize::MAX {
                    parse_terms(rest, (n - 1) as nat, done.push((term, count)))
                } else {
                    None
                },
            },
        }
    }
}

/// Reads a document with its path from the front of the bytes.
pub open spec fn parse_document(bytes: Seq<u8>) -> Option<
    ((Seq<char>, Seq<(Seq<char>, nat)>), Seq<u8>),
> {
    match parse_text(bytes) {
        None => None,
        Some((path, rest)) => match parse_number(rest) {
            None => None,
            Some((n, rest)) => match parse_terms(rest, n, Seq::empty()) {
                None => None,
                Some((entries, rest)) => Some(((path, entries), rest)),
            },
        },
    }
}

/// Reads `n` more documents behind the ones in `done`. A path that is held
/// already is refused.
pub open spec fn parse_documents(
    bytes: Seq<u8>,
    n: nat,
    done: Seq<(Seq<char>, Seq<(Seq<char>, nat)>)>,
) -> Option<(Seq<(Seq<char>, Seq<(Seq<char>, nat)>)>, Seq<u8>)>
    decreases n,
{
    if n == 0 {
        Some((done, bytes))
    } else {
        match parse_document(bytes) {
            None => None,
            Some((document, rest)) => if !lists_path(done, document.0) {
                parse_documents(rest, (n - 1) as nat, done.push(document))
            } else {
                None
            },
        }
    }
}

/// Reads an index: the bytes must hold the number of its documents and the
/// documents, and nothing after them.
pub open spec fn parse_entries(bytes: Seq<u8>) -> Option<Seq<(Seq<char>, Seq<(Seq<char>, nat)>)>> {
    match parse_number(bytes) {
        None => None,
        Some((n, rest)) => match parse_documents(rest, n, Seq::empty()) {
            None => None,
            Some((documents, rest)) => if rest.len() == 0 {
                Some(documents)
            } else {
                None
            },
        },
    }
}

/// A number is read back from its stored form, whatever follows it.
pub proof fn lemma_parse_number(n: nat, rest: Seq<u8>)
    requires
        n <= u64::MAX,
    ensures
        encode_number(n).len() == 8,
        parse_number(encode_number(n) + rest) == Some((n, rest)),
{
    vstd::bytes::lemma_auto_spec_u64_to_from_le_bytes();
    let bytes = encode_number(n) + rest;
    assert(bytes.take(8) =~= encode_number(n));
    assert(bytes.skip(8) =~= rest);
}

/// A text is read back from its stored form, whatever follows it.
pub proof fn lemma_parse_text(text: Seq<char>, rest: Seq<u8>)
    requires
        encode_utf8(text).len() <= usize::MAX,
    ensures
        parse_text(encode_text(text) + rest) == Some((text, rest)),
{
    let body = encode_utf8(text);
    lemma_parse_number(body.len(), body + rest);
    assert(encode_text(text) + rest =~= encode_number(body.len()) + (body + rest));
    assert((body + rest).take(body.len() as int) =~= body);
    assert((body + rest).skip(body.len() as int) =~= rest);
    vstd::utf8::encode_utf8_valid_utf8(text);
    vstd::utf8::encode_utf8_decode_utf8(text);
}

/// A list of terms is read back from its stored form, whatever follows it
/// and whatever terms were read before it, as long as all of them together
/// are storable.
pub proof fn lemma_parse_terms(
    todo: Seq<(Seq<char>, nat)>,
    done: Seq<(Seq<char>, nat)>,
    rest: Seq<u8>,
)
    requires
        storable_terms(done + todo),
    ensures
        parse_terms(encode_terms(todo) + rest, todo.len(), done) == Some((done + todo, rest)),
    decreases todo.len(),
{
    let all = done + todo;
    if todo.len() == 0 {
        assert(encode_terms(todo) + rest =~= rest);
        assert(all =~= done);
    } else {
        let x = todo.first();
        let tail = todo.drop_first();
        let at = done.len() as int;
        assert(all[at] == x);
        let after_count = encode_terms(tail) + rest;
        let after_term = encode_number(x.1) + after_count;
        assert(encode_terms(todo) + rest =~= encode_text(x.0) + after_term);
        lemma_total_count_prefix(all, at + 1);
        assert(all.take(at + 1) =~= done.push(x));
        assert(done.push(x).drop_last() =~= done);
        lemma_parse_text(x.0, after_term);
        lemma_parse_number(x.1, after_count);
        assert(!lists_term(done, x.0)) by {
            if lists_term(done, x.0) {
                let i = choose|i: int| 0 <= i < done.len() && (#[trigger] done[i]).0 == x.0;
                assert(all[i] == done[i]);
            }
        }
        assert(done.push(x) + tail =~= all);
        lemma_parse_terms(tail, done.push(x), rest);
    }
}

/// A document is read back from its stored form, whatever follows it.
pub proof fn lemma_parse_document(document: (Seq<char>, Seq<(Seq<char>, nat)>), rest: Seq<u8>)
    requires
        storable_terms(document.1),
        encode_utf8(document.0).len() <= usize::MAX,
    ensures
        parse_document(encode_document(document) + rest) == Some((document, rest)),
{
    let after_length = encode_terms(document.1) + rest;
    let after_path = encode_number(document.1.len()) + after_length;
    assert(encode_document(document) + rest =~= encode_text(document.0) + after_path);
    lemma_parse_text(document.0, after_path);
    lemma_parse_number(document.1.len(), after_length);
    assert(Seq::<(Seq<char>, nat)>::empty() + document.1 =~= document.1);
    lemma_parse_terms(document.1, Seq::empty(), rest);
}

/// A list of documents is read back from its stored form, whatever follows
/// it and whatever documents were read before it, as long as all of them
/// together are storable.
pub proof fn lemma_parse_documents(
    todo: Seq<(Seq<char>, Seq<(Seq<char>, nat)>)>,
    done: Seq<(Seq<char>, Seq<(Seq<char>, nat)>)>,
    rest: Seq<u8>,
)
    requires
        storable(done + todo),
    ensures
        parse_documents(encode_documents(todo) + rest, todo.len(), done) == Some(
            (done + todo, rest),
        ),
    decreases todo.len(),
{
    let all = done + todo;
    if todo.len() == 0 {
        assert(encode_documents(todo) + rest =~= rest);
        assert(all =~= done);
    } else {
        let x = todo.first();
        let tail = todo.drop_first();
        let at = done.len() as int;
        assert(all[at] == x);
        let after = encode_documents(tail) + rest;
        assert(encode_documents(todo) + rest =~= encode_document(x) + after);
        lemma_parse_document(x, after);
        assert(!lists_path(done, x.0)) by {
            if lists_path(done, x.0) {
                let i = choose|i: int| 0 <= i < done.len() && (#[trigger] done[i]).0 == x.0;
                assert(all[i] == done[i]);
            }
        }
        assert(done.push(x) + tail =~= all);
        lemma_parse_documents(tail, done.push(x), rest);
    }
}

/// Reading what was stored gives back what was stored: every path, every
/// term and every count, for an index of any number of documents.
pub proof fn lemma_round_trip(documents: Seq<(Seq<char>, Seq<(Seq<char>, nat)>)>)
    requires
        storable(documents),
    ensures
        parse_entries(encode_entries(documents)) == Some(documents),
{
    let body = encode_documents(documents);
    lemma_parse_number(documents.len(), body);
    assert(Seq::<(Seq<char>, Seq<(Seq<char>, nat)>)>::empty() + documents =~= documents);
    assert(body + Seq::<u8>::empty() =~= body);
    lemma_parse_documents(documents, Seq::empty(), Seq::empty());
}

/// A number that was read stands at the front of the bytes in its stored
/// form.
pub proof fn lemma_parsed_number(bytes: Seq<u8>)
    requires
        parse_number(bytes) is Some,
    ensures
        ({
            let (n, rest) = parse_number(bytes)->0;
            n <= u64::MAX && bytes == encode_number(n) + rest
        }),
{
    vstd::bytes::lemma_auto_spec_u64_to_from_le_bytes();
    let (n, rest) = parse_number(bytes)->0;
    assert(bytes.take(8).len() == 8);
    assert(encode_number(n) == bytes.take(8));
    assert(bytes =~= bytes.take(8) + bytes.skip(8));
}

/// A text that was read stands at the front of the bytes in its stored form.
pub proof fn lemma_parsed_text(bytes: Seq<u8>)
    requires
        parse_text(bytes) is Some,
    ensures
        ({
            let (text, rest) = parse_text(bytes)->0;
            encode_utf8(text).len() <= usize::MAX && bytes == encode_text(text) + rest
        }),
{
    lemma_parsed_number(bytes);
    let (n, after) = parse_number(bytes)->0;
    let (text, rest) = parse_text(bytes)->0;
    let body = after.take(n as int);
    vstd::utf8::decode_utf8_encode_utf8(body);
    assert(encode_utf8(text) == body);
    assert(after =~= body + rest);
    assert(bytes =~= encode_text(text) + rest);
}

/// The terms that were read behind `done` stand at the front of the bytes in
/// their stored form, and together with `done` they are storable.
pub proof fn lemma_parsed_terms(bytes: Seq<u8>, n: nat, done: Seq<(Seq<char>, nat)>)
    requires
        storable_terms(done),
        parse_terms(bytes, n, done) is Some,
    ensures
        ({
            let (all, rest) = parse_terms(bytes, n, done)->0;
            &&& storable_terms(all)
            &&& all.len() == done.len() + n
            &&& all.take(done.len() as int) == done
            &&& bytes == encode_terms(all.skip(done.len() as int)) + rest
        }),
    decreases n,
{
    let (all, rest) = parse_terms(bytes, n, done)->0;
    if n == 0 {
        assert(all.take(done.len() as int) =~= done);
        assert(all.skip(done.len() as int) =~= Seq::empty());
        assert(bytes =~= encode_terms(all.skip(done.len() as int)) + rest);
    } else {
        lemma_parsed_text(bytes);
        let (term, after_term) = parse_text(bytes)->0;
        lemma_parsed_number(after_term);
        let (count, after_count) = parse_number(after_term)->0;
        let more = done.push((term, count));
        assert(more.drop_last() =~= done);
        assert forall|i: int, j: int| 0 <= i < j < more.len() implies (#[trigger] more[i]).0 != (
        #[trigger] more[j]).0 by {
            if j == done.len() {
                assert(done[i] == more[i]);
            } else {
                assert(done[i] == more[i] && done[j] == more[j]);
            }
        }
        assert forall|i: int| 0 <= i < more.len() implies (#[trigger] more[i]).1 > 0 by {
            if i < done.len() {
                assert(done[i] == more[i]);
            }
        }
        assert forall|i: int| 0 <= i < more.len() implies encode_utf8((#[trigger] more[i]).0).len()
            <= usize::MAX by {
            if i < done.len() {
                assert(done[i] == more[i]);
            }
        }
        lemma_length_within_total(more);
        lemma_parsed_terms(after_count, (n - 1) as nat, more);
        let at = done.len() as int;
        assert(all.take(at) =~= all.take(at + 1).take(at));
        assert(more.take(at) =~= done);
        assert(all[at] == more[at]);
        assert(all.skip(at).first() == (term, count));
        assert(all.skip(at).drop_first() =~= all.skip(at + 1));
        assert(bytes =~= encode_terms(all.skip(at)) + rest);
    }
}

/// A document that was read stands at the front of the bytes in its stored
/// form and is storable.
pub proof fn lemma_parsed_document(bytes: Seq<u8>)
    requires
        parse_document(bytes) is Some,
    ensures
        ({
            let (document, rest) = parse_document(bytes)->0;
            &&& storable_terms(document.1)
            &&& encode_utf8(document.0).len() <= usize::MAX
            &&& bytes == encode_document(document) + rest
        }),
{
    lemma_parsed_text(bytes);
    let (path, after_path) = parse_text(bytes)->0;
    lemma_parsed_number(after_path);
    let (n, after_length) = parse_number(after_path)->0;
    let none = Seq::<(Seq<char>, nat)>::empty();
    lemma_parsed_terms(after_length, n, none);
    let (entries, rest) = parse_terms(after_length, n, none)->0;
    assert(entries.skip(0) =~= entries);
    assert(bytes =~= encode_document((path, entries)) + rest);
}

/// The documents that were read behind `done` stand at the front of the
/// bytes in their stored form, and together with `done` they are storable.
pub proof fn lemma_parsed_documents(
    bytes: Seq<u8>,
    n: nat,
    done: Seq<(Seq<char>, Seq<(Seq<char>, nat)>)>,
)
    requires
        storable(done),
        done.len() + n <= usize::MAX,
        parse_documents(bytes, n, done) is Some,
    ensures
        ({
            let (all, rest) = parse_documents(bytes, n, done)->0;
            &&& storable(all)
            &&& all.len() == done.len() + n
            &&& all.take(done.len() as int) == done
            &&& bytes == encode_documents(all.skip(done.len() as int)) + rest
        }),
    decreases n,
{
    let (all, rest) = parse_documents(bytes, n, done)->0;
    if n == 0 {
        assert(all.take(done.len() as int) =~= done);
        assert(all.skip(done.len() as int) =~= Seq::empty());
        assert(bytes =~= encode_documents(all.skip(done.len() as int)) + rest);
    } else {
        lemma_parsed_document(bytes);
        let (document, after) = parse_document(bytes)->0;
        let more = done.push(document);
        assert forall|i: int, j: int| 0 <= i < j < more.len() implies (#[trigger] more[i]).0 != (
        #[trigger] more[j]).0 by {
            if j == done.len() {
                assert(done[i] == more[i]);
            } else {
                assert(done[i] == more[i] && done[j] == more[j]);
            }
        }
        assert forall|i: int| 0 <= i < more.len() implies storable_terms((#[trigger] more[i]).1)
            && encode_utf8(more[i].0).len() <= usize::MAX by {
            if i < done.len() {
                assert(done[i] == more[i]);
            }
        }
        lemma_parsed_documents(after, (n - 1) as nat, more);
        let at = done.len() as int;
        assert(all.take(at) =~= all.take(at + 1).take(at));
        assert(more.take(at) =~= done);
        assert(all[at] == more[at]);
        assert(all.skip(at).first() == document);
        assert(all.skip(at).drop_first() =~= all.skip(at + 1));
        assert(bytes =~= encode_documents(all.skip(at)) + rest);
    }
}

/// Only the stored form of a storable index is read as an index: bytes that
/// are read as one are exactly what storing it writes.
pub proof fn lemma_parsed_entries(bytes: Seq<u8>)
    requires
        bytes.len() <= usize::MAX,
        parse_entries(bytes) is Some,
    ensures
        storable(parse_entries(bytes)->0),
        encode_entries(parse_entries(bytes)->0) == bytes,
{
    lemma_parsed_number(bytes);
    let (n, after) = parse_number(bytes)->0;
    let none = Seq::<(Seq<char>, Seq<(Seq<char>, nat)>)>::empty();
    lemma_documents_need_bytes(after, n, none);
    lemma_parsed_documents(after, n, none);
    let (all, rest) = parse_documents(after, n, none)->0;
    assert(all.skip(0) =~= all);
    assert(rest =~= Seq::<u8>::empty());
    assert(encode_documents(all) + rest =~= encode_documents(all));
}

/// Every document that is read takes at least one byte.
proof fn lemma_documents_need_bytes(
    bytes: Seq<u8>,
    n: nat,
    done: Seq<(Seq<char>, Seq<(Seq<char>, nat)>)>,
)
    requires
        parse_documents(bytes, n, done) is Some,
    ensures
        n <= bytes.len(),
    decreases n,
{
    if n > 0 {
        lemma_parsed_document(bytes);
        let (document, after) = parse_document(bytes)->0;
        lemma_parsed_number(bytes);
        assert(encode_document(document).len() >= 8) by {
            vstd::bytes::lemma_auto_spec_u64_to_from_le_bytes();
        }
        lemma_documents_need_bytes(after, (n - 1) as nat, done.push(document));
    }
}

/// The stored terms with one more are the stored terms and then the one.
proof fn lemma_encode_terms_push(entries: Seq<(Seq<char>, nat)>, entry: (Seq<char>, nat))
    ensures
        encode_terms(entries.push(entry)) == encode_terms(entries) + encode_term(entry),
    decreases entries.len(),
{
    let all = entries.push(entry);
    if entries.len() == 0 {
        assert(all.drop_first() =~= Seq::empty());
        assert(encode_terms(all.drop_first()) =~= Seq::empty());
        assert(all.first() == entry);
        assert(encode_terms(all) =~= encode_term(entry));
        assert(encode_terms(entries) + encode_term(entry) =~= encode_term(entry));
    } else {
        assert(all.drop_first() =~= entries.drop_first().push(entry));
        lemma_encode_terms_push(entries.drop_first(), entry);
        assert(encode_terms(all) =~= encode_terms(entries) + encode_term(entry));
    }
}

/// The stored documents with one more are the stored documents and then the
/// one.
proof fn lemma_encode_documents_push(
    documents: Seq<(Seq<char>, Seq<(Seq<char>, nat)>)>,
    document: (Seq<char>, Seq<(Seq<char>, nat)>),
)
    ensures
        encode_documents(documents.push(document)) == encode_documents(documents) + encode_document(
            document,
        ),
    decreases documents.len(),
{
    let all = documents.push(document);
    if documents.len() == 0 {
        assert(all.drop_first() =~= Seq::empty());
        assert(encode_documents(all.drop_first()) =~= Seq::empty());
        assert(all.first() == document);
        assert(encode_documents(all) =~= encode_document(document));
        assert(encode_documents(documents) + encode_document(document) =~= encode_document(
            document,
        ));
    } else {
        assert(all.drop_first() =~= documents.drop_first().push(document));
        lemma_encode_documents_push(documents.drop_first(), document);
        assert(encode_documents(all) =~= encode_documents(documents) + encode_document(document));
    }
}

/// Appends a number in its stored form.
fn write_number(out: &mut Vec<u8>, n: u64)
    ensures
        final(out)@ == old(out)@ + encode_number(n as nat),
{
    let mut bytes = u64_to_le_bytes(n);
    out.append(&mut bytes);
}

/// Appends a text in its stored form.
fn write_text(out: &mut Vec<u8>, text: &str)
    ensures
        final(out)@ == old(out)@ + encode_text(text@),
        encode_utf8(text@).len() <= usize::MAX,
{
    let bytes = text.as_bytes();
    write_number(out, bytes.len() as u64);
    let ghost middle = out@;
    out.extend_from_slice(bytes);
    assert(out@ =~= middle + bytes@);
    assert(out@ =~= old(out)@ + encode_text(text@));
}

/// Appends a document with its path in its stored form.
fn write_document(out: &mut Vec<u8>, path: &str, document: &Document)
    requires
        document.wf(),
    ensures
        final(out)@ == old(out)@ + encode_document((path@, document.entries())),
        storable_terms(document.entries()),
        encode_utf8(path@).len() <= usize::MAX,
{
    let ghost entries = document.entries();
    proof {
        document.lemma_entries();
    }
    write_text(out, path);
    let n = document.len();
    write_number(out, n as u64);
    let ghost head = out@;
    assert(head =~= old(out)@ + encode_text(path@) + encode_number(entries.len()));
    let mut i: usize = 0;
    proof {
        assert(entries.take(0) =~= Seq::empty());
        assert(head + encode_terms(entries.take(0)) =~= head);
    }
    while i < n
        invariant
            document.wf(),
            entries == document.entries(),
            n == entries.len(),
            i <= n,
            out@ == head + encode_terms(entries.take(i as int)),
            forall|k: int| 0 <= k < i ==> encode_utf8((#[trigger] entries[k]).0).len() <= usize::MAX,
        decreases n - i,
    {
        let ghost before = out@;
        write_text(out, document.term_at(i).as_str());
        write_number(out, document.count_at(i) as u64);
        proof {
            assert(entries.take(i + 1) =~= entries.take(i as int).push(entries[i as int]));
            lemma_encode_terms_push(entries.take(i as int), entries[i as int]);
            assert(out@ =~= before + encode_term(entries[i as int]));
            assert(out@ =~= head + encode_terms(entries.take(i + 1)));
        }
        i = i + 1;
    }
    proof {
        assert(entries.take(n as int) =~= entries);
        assert(out@ =~= old(out)@ + encode_document((path@, entries)));
    }
}

/// Writes an index in its stored form. Reading the bytes gives the index
/// back.
pub fn encode_index(index: &Index) -> (bytes: Vec<u8>)
    requires
        index.wf(),
    ensures
        bytes@ == encode_entries(index.entries()),
        storable(index.entries()),
        parse_entries(bytes@) == Some(index.entries()),
{
    let ghost documents = index.entries();
    proof {
        index.lemma_listing();
    }
    let mut bytes: Vec<u8> = Vec::new();
    let n = index.len();
    write_number(&mut bytes, n as u64);
    let ghost head = bytes@;
    assert(head =~= encode_number(documents.len()));
    let mut i: usize = 0;
    proof {
        assert(documents.take(0) =~= Seq::empty());
        assert(head + encode_documents(documents.take(0)) =~= head);
    }
    while i < n
        invariant
            index.wf(),
            documents == index.entries(),
            n == documents.len(),
            n == index.keys().len(),
            forall|k: int| 0 <= k < n ==> (#[trigger] documents[k]).0 == index.keys()[k],
            i <= n,
            bytes@ == head + encode_documents(documents.take(i as int)),
            forall|k: int|
                0 <= k < i ==> storable_terms((#[trigger] documents[k]).1) && encode_utf8(
                    documents[k].0,
                ).len() <= usize::MAX,
        decreases n - i,
    {
        let ghost before = bytes@;
        write_document(&mut bytes, index.path_at(i).as_str(), index.document_at(i));
        proof {
            assert(documents[i as int] == (documents[i as int].0, documents[i as int].1));
            assert(documents.take(i + 1) =~= documents.take(i as int).push(documents[i as int]));
            lemma_encode_documents_push(documents.take(i as int), documents[i as int]);
            assert(bytes@ =~= head + encode_documents(documents.take(i + 1)));
        }
        i = i + 1;
    }
    proof {
        assert(documents.take(n as int) =~= documents);
        assert forall|a: int, b: int| 0 <= a < b < documents.len() implies (
        #[trigger] documents[a]).0 != (#[trigger] documents[b]).0 by {
            assert(index.keys()[a] != index.keys()[b]);
        }
        lemma_round_trip(documents);
    }
    bytes
}

/// Reads a number at position `at`: the number and the position behind it.
fn read_number(bytes: &[u8], at: usize) -> (r: Option<(u64, usize)>)
    requires
        at <= bytes.len(),
    ensures
        match r {
            Some((n, next)) => at <= next <= bytes.len() && parse_number(bytes@.skip(at as int))
                == Some((n as nat, bytes@.skip(next as int))),
            None => parse_number(bytes@.skip(at as int)) is None,
        },
{
    if bytes.len() - at < 8 {
        return None;
    }
    let n = u64_from_le_bytes(slice_subrange(bytes, at, at + 8));
    proof {
        let rest = bytes@.skip(at as int);
        assert(rest.take(8) =~= bytes@.subrange(at as int, at + 8));
        assert(rest.skip(8) =~= bytes@.skip(at + 8));
    }
    Some((n, at + 8))
}

/// Reads a text at position `at`: the text and the position behind it.
fn read_text(bytes: &[u8], at: usize) -> (r: Option<(String, usize)>)
    requires
        at <= bytes.len(),
    ensures
        match r {
            Some((text, next)) => at <= next <= bytes.len() && parse_text(bytes@.skip(at as int))
                == Some((text@, bytes@.skip(next as int))),
            None => parse_text(bytes@.skip(at as int)) is None,
        },
{
    match read_number(bytes, at) {
        None => None,
        Some((n, start)) => {
            if n > (bytes.len() - start) as u64 {
                return None;
            }
            let end = start + n as usize;
            proof {
                let rest = bytes@.skip(start as int);
                assert(rest.take(n as int) =~= bytes@.subrange(start as int, end as int));
                assert(rest.skip(n as int) =~= bytes@.skip(end as int));
            }
            match text_from_utf8(slice_subrange(bytes, start, end)) {
                None => None,
                Some(text) => Some((text, end)),
            }
        },
    }
}

/// Reads a document with its path at position `at`.
fn read_document(bytes: &[u8], at: usize) -> (r: Option<(String, Document, usize)>)
    requires
        at <= bytes.len(),
    ensures
        match r {
            Some((path, document, next)) => at <= next <= bytes.len() && document.wf()
                && parse_document(bytes@.skip(at as int)) == Some(
                ((path@, document.entries()), bytes@.skip(next as int)),
            ),
            None => parse_document(bytes@.skip(at as int)) is None,
        },
{
    let (path, after_path) = match read_text(bytes, at) {
        None => { return None; },
        Some(found) => found,
    };
    let (n, start) = match read_number(bytes, after_path) {
        None => { return None; },
        Some(found) => found,
    };
    let mut document = Document::new();
    let mut here = start;
    let mut i: u64 = 0;
    let ghost whole = parse_terms(bytes@.skip(start as int), n as nat, Seq::empty());
    while i < n
        invariant
            i <= n,
            start <= here <= bytes.len(),
            document.wf(),
            parse_document(bytes@.skip(at as int)) == (match whole {
                None => None,
                Some((entries, rest)) => Some(((path@, entries), rest)),
            }),
            whole == parse_terms(
                bytes@.skip(here as int),
                (n - i) as nat,
                document.entries(),
            ),
        decreases n - i,
    {
        proof {
            document.lemma_entries();
        }
        let (term, after_term) = match read_text(bytes, here) {
            None => { return None; },
            Some(found) => found,
        };
        let (count, after_count) = match read_number(bytes, after_term) {
            None => { return None; },
            Some(found) => found,
        };
        if count > usize::MAX as u64 {
            return None;
        }
        let ghost listed = lists_term(document.entries(), term@);
        proof {
            if listed {
                let k = choose|k: int|
                    0 <= k < document.entries().len() && (#[trigger] document.entries()[k]).0
                        == term@;
                assert(document@.count(document.entries()[k].0) == document.entries()[k].1);
            }
        }
        if !document.add_entry(term, count as usize) {
            return None;
        }
        here = after_count;
        i = i + 1;
    }
    Some((path, document, here))
}

/// Reads an index from its stored form. Bytes that are not the stored form
/// of an index give `None`: bytes that end too early or go on too long, text
/// that is not UTF-8, a path or a term that occurs twice, a count of zero or
/// counts beyond the machine's limit.
pub fn decode_index(bytes: &[u8]) -> (r: Option<Index>)
    ensures
        match r {
            Some(index) => index.wf() && parse_entries(bytes@) == Some(index.entries())
                && storable(index.entries()) && encode_entries(index.entries()) == bytes@,
            None => parse_entries(bytes@) is None,
        },
{
    assert(bytes@.skip(0) =~= bytes@);
    let ghost size: usize = bytes.len();
    proof {
        if parse_entries(bytes@) is Some {
            lemma_parsed_entries(bytes@);
        }
    }
    let (n, start) = match read_number(bytes, 0) {
        None => { return None; },
        Some(found) => found,
    };
    let mut index = Index::new();
    let mut here = start;
    let mut i: u64 = 0;
    let ghost whole = parse_documents(bytes@.skip(start as int), n as nat, Seq::empty());
    while i < n
        invariant
            i <= n,
            start <= here <= bytes.len(),
            index.wf(),
            parse_entries(bytes@) == (match whole {
                None => None,
                Some((documents, rest)) => if rest.len() == 0 {
                    Some(documents)
                } else {
                    None
                },
            }),
            whole == parse_documents(bytes@.skip(here as int), (n - i) as nat, index.entries()),
        decreases n - i,
    {
        let (path, document, next) = match read_document(bytes, here) {
            None => { return None; },
            Some(found) => found,
        };
        proof {
            index.lemma_listing();
            if lists_path(index.entries(), path@) {
                let k = choose|k: int|
                    0 <= k < index.entries().len() && (#[trigger] index.entries()[k]).0 == path@;
                assert(index@.contains_key(index.keys()[k]));
            }
            if index@.contains_key(path@) {
                let k = choose|k: int| 0 <= k < index.keys().len() && #[trigger] index.keys()[k]
                    == path@;
                assert(index.entries()[k].0 == path@);
            }
        }
        if index.contains_path(path.as_str()) {
            return None;
        }
        index.insert(path, document);
        here = next;
        i = i + 1;
    }
    if here != bytes.len() {
        return None;
    }
    proof {
        assert(bytes@.skip(here as int).len() == 0);
    }
    Some(index)
}

/// An index that was read from the stored form of another holds the same
/// documents under the same paths, with the same terms and counts.
pub proof fn lemma_restored_index(index: &Index, restored: &Index)
    requires
        index.wf(),
        restored.wf(),
        storable(index.entries()),
        parse_entries(encode_entries(index.entries())) == Some(restored.entries()),
    ensures
        restored.entries() == index.entries(),
        restored@ == index@,
{
    lemma_round_trip(index.entries());
    restored.lemma_entries_determine_view(index);
}

/// What the program starts from: the index that was stored, where one was
/// stored and can be read. Where nothing was stored, or what was stored is
/// not the stored form of an index, there is none, and the index has to be
/// built anew.
pub fn load_index(stored: Option<&[u8]>) -> (r: Option<Index>)
    ensures
        match r {
            Some(index) => index.wf() && (stored matches Some(bytes) && parse_entries(bytes@)
                == Some(index.entries())),
            None => stored matches Some(bytes) ==> parse_entries(bytes@) is None,
        },
{
    match stored {
        None => None,
        Some(bytes) => decode_index(bytes),
    }
}

} // verus!
