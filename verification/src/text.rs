//! Small text and byte helpers shared by the codecs.

use vstd::prelude::*;
use vstd::utf8::*;
use vstd::string::*;

verus! {

/// Appends one character to a string.
///
/// Trusted: `String::push`, which std documents as appending the given
/// `char` to the end of the string.
#[verifier::external_body]
pub fn string_push(s: &mut String, c: char)
    ensures
        final(s)@ == old(s)@.push(c),
{
    s.push(c);
}

/// Converts a byte vector to a string when it is valid UTF-8.
///
/// Trusted: `String::from_utf8`, which std documents as returning the
/// string made of the given bytes when they are valid UTF-8 and an error
/// otherwise. The contract states this with vstd's UTF-8 model.
#[verifier::external_body]
pub fn string_from_utf8(bytes: Vec<u8>) -> (res: Option<String>)
    ensures
        res is Some <==> valid_utf8(bytes@),
        res matches Some(s) ==> s@ == decode_utf8(bytes@),
{
    match String::from_utf8(bytes) {
        Ok(s) => Some(s),
        Err(_) => None,
    }
}

/// The UTF-8 bytes of a string.
pub fn string_bytes(s: &String) -> (res: &[u8])
    ensures
        res@ == encode_utf8(s@),
{
    s.as_str().as_bytes()
}

/// Copies a byte slice into a new vector.
pub fn bytes_to_vec(b: &[u8]) -> (res: Vec<u8>)
    ensures
        res@ == b@,
{
    let mut out: Vec<u8> = Vec::new();
    let mut i: usize = 0;
    while i < b.len()
        invariant
            i <= b.len(),
            out@ == b@.subrange(0, i as int),
        decreases b.len() - i,
    {
        out.push(b[i]);
        i = i + 1;
    }
    assert(out@ =~= b@);
    out
}

/// Appends a byte slice to a vector.
pub fn extend_bytes(out: &mut Vec<u8>, b: &[u8])
    ensures
        final(out)@ == old(out)@ + b@,
{
    let mut i: usize = 0;
    while i < b.len()
        invariant
            i <= b.len(),
            out@ == old(out)@ + b@.subrange(0, i as int),
        decreases b.len() - i,
    {
        out.push(b[i]);
        i = i + 1;
    }
    assert(b@.subrange(0, b.len() as int) =~= b@);
}

/// Whether two byte slices are equal.
pub fn bytes_eq(a: &[u8], b: &[u8]) -> (res: bool)
    ensures
        res == (a@ == b@),
{
    if a.len() != b.len() {
        return false;
    }
    let mut i: usize = 0;
    while i < a.len()
        invariant
            i <= a.len(),
            a.len() == b.len(),
            forall|j: int| 0 <= j < i ==> a@[j] == b@[j],
        decreases a.len() - i,
    {
        if a[i] != b[i] {
            return false;
        }
        i = i + 1;
    }
    assert(a@ =~= b@);
    true
}

/// Two strings are equal exactly when their UTF-8 encodings are equal.
pub proof fn lemma_encode_utf8_injective(a: Seq<char>, b: Seq<char>)
    ensures
        (encode_utf8(a) == encode_utf8(b)) <==> (a == b),
{
    encode_utf8_decode_utf8(a);
    encode_utf8_decode_utf8(b);
}

/// Whether a string's content equals the given string slice.
pub fn str_eq(a: &str, b: &str) -> (res: bool)
    ensures
        res == (a@ == b@),
{
    proof {
        lemma_encode_utf8_injective(a@, b@);
    }
    bytes_eq(a.as_bytes(), b.as_bytes())
}


/// The character with a code point, when it is a Unicode scalar value.
///
/// Trusted: `char::from_u32`, which std documents as returning `None`
/// exactly for surrogates (0xD800 to 0xDFFF) and values above 0x10FFFF,
/// and otherwise the character with that code point.
#[verifier::external_body]
pub fn char_from_u32(x: u32) -> (r: Option<char>)
    ensures
        r is Some <==> (x < 0xD800 || (0xE000 <= x && x <= 0x10FFFF)),
        r matches Some(c) ==> c == x as char,
{
    char::from_u32(x)
}

/// The characters of a string, in order.
pub fn str_chars(s: &str) -> (r: Vec<char>)
    ensures
        r@ == s@,
{
    let mut v: Vec<char> = Vec::new();
    for c in it: s.chars()
        invariant
            v@ == it.seq().take(it.index() as int),
    {
        v.push(c);
    }
    v
}


/// Two strings, one after the other.
pub fn concat(a: &str, b: &str) -> (r: String)
    ensures
        r@ == a@ + b@,
{
    let mut out = String::new();
    let ca = str_chars(a);
    let cb = str_chars(b);
    let mut i: usize = 0;
    while i < ca.len()
        invariant
            i <= ca.len(),
            out@ == ca@.subrange(0, i as int),
        decreases ca.len() - i,
    {
        string_push(&mut out, ca[i]);
        assert(ca@.subrange(0, i + 1) =~= ca@.subrange(0, i as int).push(ca@[i as int]));
        i = i + 1;
    }
    let mut j: usize = 0;
    while j < cb.len()
        invariant
            j <= cb.len(),
            out@ == ca@ + cb@.subrange(0, j as int),
        decreases cb.len() - j,
    {
        string_push(&mut out, cb[j]);
        assert(cb@.subrange(0, j + 1) =~= cb@.subrange(0, j as int).push(cb@[j as int]));
        j = j + 1;
    }
    assert(ca@.subrange(0, ca.len() as int) =~= ca@);
    assert(cb@.subrange(0, cb.len() as int) =~= cb@);
    out
}

/// The debug form of a string: what `<str as Debug>` writes, a function
/// of the string alone.
pub uninterp spec fn str_debug_text(s: Seq<char>) -> Seq<char>;

/// The debug form of a string slice: quoted, with special characters
/// escaped.
///
/// Trusted: the `format!` macro with `{:?}` on a `str` (std's `Debug`
/// for `str`); its text is named `str_debug_text`.
#[verifier::external_body]
pub fn str_debug(s: &str) -> (r: String)
    ensures
        r@ == str_debug_text(s@),
{
    format!("{:?}", s)
}

} // verus!
