//! Character and string primitives of the standard library and of the stemmer
//! that the rest of the crate builds on. But for `str_eq`, each function here
//! is a thin wrapper whose contract is taken on trust.

use vstd::prelude::*;
use vstd::string::*;

verus! {

/// `char::is_alphanumeric` as a function of the character: true for the
/// characters that Unicode classes as alphabetic or numeric.
pub uninterp spec fn alphanumeric(c: char) -> bool;

/// The characters that carry Unicode's `White_Space` property, which are the
/// ones that `char::is_whitespace` holds of.
pub open spec fn whitespace(c: char) -> bool {
    ||| '\u{9}' <= c <= '\u{d}'
    ||| c == '\u{20}'
    ||| c == '\u{85}'
    ||| c == '\u{a0}'
    ||| c == '\u{1680}'
    ||| '\u{2000}' <= c <= '\u{200a}'
    ||| c == '\u{2028}'
    ||| c == '\u{2029}'
    ||| c == '\u{202f}'
    ||| c == '\u{205f}'
    ||| c == '\u{3000}'
}

/// `str::to_lowercase` as a function of the string: its lower-case form by
/// Unicode's rules, which may differ from the string in length.
pub uninterp spec fn lowercase(s: Seq<char>) -> Seq<char>;

/// The stem that the English Snowball stemmer of `rust_stemmers` gives a word.
pub uninterp spec fn english_stem(word: Seq<char>) -> Seq<char>;

/// Calls `str::to_lowercase`. The result depends on the string alone, so it
/// is named rather than spelled out.
#[verifier::external_body]
pub(crate) fn to_lowercase(s: &str) -> (r: String)
    ensures
        r@ == lowercase(s@),
{
    s.to_lowercase()
}

/// Calls `rust_stemmers::Stemmer::stem` on a stemmer that
/// `rust_stemmers::Stemmer::create` made for `Algorithm::English`. The stem
/// depends on the word alone, so it is named rather than spelled out.
#[verifier::external_body]
pub(crate) fn stem_english(word: &str) -> (r: String)
    ensures
        r@ == english_stem(word@),
{
    rust_stemmers::Stemmer::create(rust_stemmers::Algorithm::English).stem(word).into_owned()
}

/// Calls `char::is_alphanumeric`. The answer depends on the character alone,
/// so it is named rather than spelled out.
#[verifier::external_body]
pub(crate) fn is_alphanumeric(c: char) -> (r: bool)
    ensures
        r == alphanumeric(c),
{
    c.is_alphanumeric()
}

/// Calls `char::is_whitespace`, which holds of the characters with Unicode's
/// `White_Space` property.
#[verifier::external_body]
pub(crate) fn is_whitespace(c: char) -> (r: bool)
    ensures
        r == whitespace(c),
{
    c.is_whitespace()
}

/// Whether two strings have the same characters, found by comparing their
/// bytes.
pub(crate) fn str_eq(a: &str, b: &str) -> (r: bool)
    ensures
        r == (a@ == b@),
{
    let left = a.as_bytes();
    let right = b.as_bytes();
    proof {
        vstd::utf8::encode_utf8_decode_utf8(a@);
        vstd::utf8::encode_utf8_decode_utf8(b@);
    }
    if left.len() != right.len() {
        return false;
    }
    let mut i: usize = 0;
    while i < left.len()
        invariant
            left.len() == right.len(),
            i <= left.len(),
            left@ == vstd::utf8::encode_utf8(a@),
            right@ == vstd::utf8::encode_utf8(b@),
            forall|k: int| 0 <= k < i ==> left@[k] == right@[k],
        decreases left.len() - i,
    {
        if left[i] != right[i] {
            return false;
        }
        i = i + 1;
    }
    assert(left@ =~= right@);
    true
}

/// Calls `std::str::from_utf8`, which accepts exactly the byte sequences that
/// are valid UTF-8 and reads the characters that they encode.
#[verifier::external_body]
pub(crate) fn text_from_utf8(bytes: &[u8]) -> (r: Option<String>)
    ensures
        r is Some <==> vstd::utf8::valid_utf8(bytes@),
        r matches Some(text) ==> text@ == vstd::utf8::decode_utf8(bytes@),
{
    match std::str::from_utf8(bytes) {
        Ok(text) => Some(text.to_owned()),
        Err(_) => None,
    }
}

/// Calls `String::push`, which appends one character to the end of the string.
#[verifier::external_body]
pub(crate) fn push_char(s: &mut String, c: char)
    ensures
        final(s)@ == old(s)@.push(c),
{
    s.push(c)
}

} // verus!
