//! Shared identifier newtypes: record ids, blob ids, identity ids.

use vstd::prelude::*;
use vstd::utf8::*;
use vstd::string::*;
use crate::text::string_push;

verus! {

/// The lowercase hex digit for a nibble value `0..16`.
pub open spec fn hex_char(n: int) -> char {
    if n < 10 {
        (48 + n) as char
    } else {
        (87 + n) as char
    }
}

/// Lowercase hex of a byte sequence: two digits per byte, high nibble
/// first.
pub open spec fn spec_hex(b: Seq<u8>) -> Seq<char> {
    Seq::new(
        2 * b.len(),
        |i: int|
            if i % 2 == 0 {
                hex_char((b[i / 2] / 16) as int)
            } else {
                hex_char((b[i / 2] % 16) as int)
            },
    )
}

/// The value of one hex digit (either case), or `None`.
pub open spec fn spec_hex_digit(c: u8) -> Option<u8> {
    if 48 <= c <= 57 {
        Some((c - 48) as u8)
    } else if 97 <= c <= 102 {
        Some((c - 87) as u8)
    } else if 65 <= c <= 70 {
        Some((c - 55) as u8)
    } else {
        None
    }
}

/// Whether every byte of `b` is a hex digit.
pub open spec fn all_hex_digits(b: Seq<u8>) -> bool {
    forall|i: int| 0 <= i < b.len() ==> (#[trigger] spec_hex_digit(b[i])) is Some
}

/// The 32 bytes spelled by 64 hex digits, or `None`.
pub open spec fn spec_parse_hex32(b: Seq<u8>) -> Option<Seq<u8>> {
    if b.len() == 64 && all_hex_digits(b) {
        Some(
            Seq::new(
                32,
                |i: int|
                    (spec_hex_digit(b[2 * i])->0 * 16 + spec_hex_digit(b[2 * i + 1])->0) as u8,
            ),
        )
    } else {
        None
    }
}

pub(crate) fn hex_digit_char(n: u8) -> (c: char)
    requires
        n < 16,
    ensures
        c == hex_char(n as int),
{
    if n < 10 {
        (48 + n) as char
    } else {
        (87 + n) as char
    }
}

pub(crate) fn hex_digit_value(c: u8) -> (res: Option<u8>)
    ensures
        res == spec_hex_digit(c),
{
    if 48 <= c && c <= 57 {
        Some(c - 48)
    } else if 97 <= c && c <= 102 {
        Some(c - 87)
    } else if 65 <= c && c <= 70 {
        Some(c - 55)
    } else {
        None
    }
}

/// Lowercase hex of 32 bytes.
pub fn hex32(bytes: &[u8; 32]) -> (s: String)
    ensures
        s@ == spec_hex(bytes@),
{
    let mut s = String::new();
    let mut i: usize = 0;
    while i < 32
        invariant
            i <= 32,
            bytes@.len() == 32,
            s@ =~= spec_hex(bytes@).subrange(0, 2 * i as int),
        decreases 32 - i,
    {
        let b = bytes[i];
        string_push(&mut s, hex_digit_char(b / 16));
        string_push(&mut s, hex_digit_char(b % 16));
        i = i + 1;
    }
    s
}

/// Lowercase hex of any bytes.
pub fn hex_bytes(bytes: &[u8]) -> (s: String)
    ensures
        s@ == spec_hex(bytes@),
{
    let mut s = String::new();
    let mut i: usize = 0;
    while i < bytes.len()
        invariant
            i <= bytes.len(),
            s@ =~= spec_hex(bytes@).subrange(0, 2 * i as int),
        decreases bytes.len() - i,
    {
        let b = bytes[i];
        string_push(&mut s, hex_digit_char(b / 16));
        string_push(&mut s, hex_digit_char(b % 16));
        i = i + 1;
    }
    s
}

/// Parses 64 hex digits (either case) into 32 bytes.
pub fn parse_hex32(b: &[u8]) -> (res: Option<[u8; 32]>)
    ensures
        res matches Some(a) ==> spec_parse_hex32(b@) == Some(a@),
        res is None ==> spec_parse_hex32(b@) is None,
{
    if b.len() != 64 {
        return None;
    }
    let mut out = [0u8; 32];
    let mut i: usize = 0;
    while i < 32
        invariant
            i <= 32,
            b@.len() == 64,
            out@.len() == 32,
            forall|j: int| 0 <= j < 2 * i ==> (#[trigger] spec_hex_digit(b@[j])) is Some,
            forall|j: int|
                0 <= j < i ==> #[trigger] out@[j] == (spec_hex_digit(b@[2 * j])->0 * 16
                    + spec_hex_digit(b@[2 * j + 1])->0) as u8,
        decreases 32 - i,
    {
        let hi = match hex_digit_value(b[2 * i]) {
            Some(v) => v,
            None => return None,
        };
        let lo = match hex_digit_value(b[2 * i + 1]) {
            Some(v) => v,
            None => return None,
        };
        out[i] = hi * 16 + lo;
        i = i + 1;
    }
    assert(all_hex_digits(b@));
    assert(out@ =~= spec_parse_hex32(b@)->0);
    Some(out)
}

/// Parsing the lowercase hex of 32 bytes gives those bytes back.
pub proof fn lemma_hex_round_trip(b: Seq<u8>)
    requires
        b.len() == 32,
    ensures
        spec_parse_hex32(encode_utf8(spec_hex(b))) == Some(b),
{
    let h = spec_hex(b);
    assert(is_ascii_chars(h)) by {
        assert forall|i: int| 0 <= i < h.len() implies '\0' <= #[trigger] h[i] <= '\u{7f}' by {
            let x = b[i / 2];
            assert(x / 16 < 16 && x % 16 < 16);
        }
    }
    is_ascii_chars_encode_utf8(h);
    let e = encode_utf8(h);
    assert forall|i: int| 0 <= i < e.len() implies (#[trigger] spec_hex_digit(e[i])) is Some by {
        assert(h[i] as u8 == e[i]);
    }
    let r = spec_parse_hex32(e)->0;
    assert forall|i: int| 0 <= i < 32 implies r[i] == b[i] by {
        assert(h[2 * i] as u8 == e[2 * i]);
        assert(h[2 * i + 1] as u8 == e[2 * i + 1]);
        assert((2 * i) % 2 == 0 && (2 * i) / 2 == i);
        assert((2 * i + 1) % 2 == 1 && (2 * i + 1) / 2 == i);
    }
    assert(r =~= b);
}

/// A record identifier: BLAKE3-256 over the canonical envelope without
/// the signature.
#[derive(Clone, Copy, PartialEq, Eq, PartialOrd, Ord, Hash, Debug)]
pub struct RecordId(pub [u8; 32]);

/// A blob identifier: BLAKE3-256 over the blob bytes. Text form is
/// `b3-256:<hex>`.
#[derive(Clone, Copy, PartialEq, Eq, PartialOrd, Ord, Hash, Debug)]
pub struct BlobId(pub [u8; 32]);

/// An identity identifier: the record id of the identity's genesis
/// rotation record.
#[derive(Clone, Copy, PartialEq, Eq, PartialOrd, Ord, Hash, Debug)]
pub struct IdentityId(pub [u8; 32]);

impl RecordId {
    /// The raw 32 bytes.
    pub fn as_bytes(&self) -> (b: &[u8; 32])
        ensures
            b@ == self.0@,
    {
        &self.0
    }

    /// Lowercase hex, the text form of ids.
    pub fn to_hex(&self) -> (s: String)
        ensures
            s@ == spec_hex(self.0@),
    {
        hex32(&self.0)
    }

    /// Parse from 64 lowercase (or uppercase) hex characters.
    pub fn from_hex(hex: &str) -> (res: Option<Self>)
        ensures
            res matches Some(id) ==> spec_parse_hex32(hex.spec_bytes()) == Some(id.0@),
            res is None ==> spec_parse_hex32(hex.spec_bytes()) is None,
    {
        match parse_hex32(hex.as_bytes()) {
            Some(a) => Some(RecordId(a)),
            None => None,
        }
    }
}

impl BlobId {
    /// The raw 32 bytes.
    pub fn as_bytes(&self) -> (b: &[u8; 32])
        ensures
            b@ == self.0@,
    {
        &self.0
    }

    /// Lowercase hex, the text form of ids.
    pub fn to_hex(&self) -> (s: String)
        ensures
            s@ == spec_hex(self.0@),
    {
        hex32(&self.0)
    }

    /// Parse from 64 lowercase (or uppercase) hex characters.
    pub fn from_hex(hex: &str) -> (res: Option<Self>)
        ensures
            res matches Some(id) ==> spec_parse_hex32(hex.spec_bytes()) == Some(id.0@),
            res is None ==> spec_parse_hex32(hex.spec_bytes()) is None,
    {
        match parse_hex32(hex.as_bytes()) {
            Some(a) => Some(BlobId(a)),
            None => None,
        }
    }
}

impl IdentityId {
    /// The raw 32 bytes.
    pub fn as_bytes(&self) -> (b: &[u8; 32])
        ensures
            b@ == self.0@,
    {
        &self.0
    }

    /// Lowercase hex, the text form of ids.
    pub fn to_hex(&self) -> (s: String)
        ensures
            s@ == spec_hex(self.0@),
    {
        hex32(&self.0)
    }

    /// Parse from 64 lowercase (or uppercase) hex characters.
    pub fn from_hex(hex: &str) -> (res: Option<Self>)
        ensures
            res matches Some(id) ==> spec_parse_hex32(hex.spec_bytes()) == Some(id.0@),
            res is None ==> spec_parse_hex32(hex.spec_bytes()) is None,
    {
        match parse_hex32(hex.as_bytes()) {
            Some(a) => Some(IdentityId(a)),
            None => None,
        }
    }

    /// The zero identity id carried by genesis records.
    pub fn zero() -> (id: IdentityId)
        ensures
            id.0@ == Seq::new(32, |i: int| 0u8),
    {
        let id = IdentityId([0u8; 32]);
        assert(id.0@ =~= Seq::new(32, |i: int| 0u8));
        id
    }
}

/// The characters of the `b3-256:` prefix of a blob URI.
pub open spec fn uri_prefix() -> Seq<char> {
    seq!['b', '3', '-', '2', '5', '6', ':']
}

/// The bytes of the `b3-256:` prefix of a blob URI.
pub open spec fn uri_prefix_bytes() -> Seq<u8> {
    seq![98u8, 51u8, 45u8, 50u8, 53u8, 54u8, 58u8]
}

/// The blob id a `b3-256:<hex>` text (as UTF-8 bytes) names.
pub open spec fn spec_parse_uri(b: Seq<u8>) -> Option<Seq<u8>> {
    if b.len() >= 7 && b.subrange(0, 7) == uri_prefix_bytes() {
        spec_parse_hex32(b.skip(7))
    } else {
        None
    }
}

impl BlobId {
    /// The `b3-256:<hex>` text form.
    pub fn to_uri(&self) -> (s: String)
        ensures
            s@ == uri_prefix() + spec_hex(self.0@),
    {
        let mut s = String::new();
        string_push(&mut s, 'b');
        string_push(&mut s, '3');
        string_push(&mut s, '-');
        string_push(&mut s, '2');
        string_push(&mut s, '5');
        string_push(&mut s, '6');
        string_push(&mut s, ':');
        let h = hex32(&self.0);
        let mut i: usize = 0;
        let hb = h.as_str();
        proof {
            assert(s@ =~= uri_prefix());
        }
        let n = hb.unicode_len();
        while i < n
            invariant
                i <= n,
                n == h@.len(),
                hb@ == h@,
                s@ == uri_prefix() + h@.subrange(0, i as int),
            decreases n - i,
        {
            let c = hb.get_char(i);
            proof {
                assert(h@.subrange(0, i + 1) =~= h@.subrange(0, i as int).push(c));
            }
            string_push(&mut s, c);
            i = i + 1;
        }
        proof {
            assert(h@.subrange(0, n as int) =~= h@);
        }
        s
    }

    /// Parse the `b3-256:<hex>` text form.
    pub fn from_uri(s: &str) -> (res: Option<Self>)
        ensures
            res matches Some(id) ==> spec_parse_uri(s.spec_bytes()) == Some(id.0@),
            res is None ==> spec_parse_uri(s.spec_bytes()) is None,
    {
        let b = s.as_bytes();
        if b.len() < 7 || b[0] != 98 || b[1] != 51 || b[2] != 45 || b[3] != 50 || b[4] != 53
            || b[5] != 54 || b[6] != 58 {
            proof {
                if b@.len() >= 7 && b@.subrange(0, 7) == uri_prefix_bytes() {
                    assert(b@.subrange(0, 7)[0] == b@[0]);
                    assert(b@.subrange(0, 7)[1] == b@[1]);
                    assert(b@.subrange(0, 7)[2] == b@[2]);
                    assert(b@.subrange(0, 7)[3] == b@[3]);
                    assert(b@.subrange(0, 7)[4] == b@[4]);
                    assert(b@.subrange(0, 7)[5] == b@[5]);
                    assert(b@.subrange(0, 7)[6] == b@[6]);
                }
            }
            return None;
        }
        proof {
            assert(b@.subrange(0, 7) =~= uri_prefix_bytes());
        }
        let rest = vstd::slice::slice_subrange(b, 7, b.len());
        proof {
            assert(rest@ =~= b@.skip(7));
        }
        match parse_hex32(rest) {
            Some(a) => Some(BlobId(a)),
            None => None,
        }
    }
}

/// A blob id's URI parses back to the same id.
pub proof fn lemma_uri_round_trip(id: Seq<u8>)
    requires
        id.len() == 32,
    ensures
        spec_parse_uri(encode_utf8(uri_prefix() + spec_hex(id))) == Some(id),
{
    let h = spec_hex(id);
    let t = uri_prefix() + h;
    lemma_hex_round_trip(id);
    assert(is_ascii_chars(h)) by {
        assert forall|i: int| 0 <= i < h.len() implies '\0' <= #[trigger] h[i] <= '\u{7f}' by {
            let x = id[i / 2];
            assert(x / 16 < 16 && x % 16 < 16);
        }
    }
    assert(is_ascii_chars(t));
    is_ascii_chars_encode_utf8(t);
    is_ascii_chars_encode_utf8(h);
    let e = encode_utf8(t);
    assert(e.subrange(0, 7) =~= uri_prefix_bytes()) by {
        assert forall|i: int| 0 <= i < 7 implies e[i] == uri_prefix_bytes()[i] by {
            assert(t[i] as u8 == e[i]);
        }
    }
    assert(e.skip(7) =~= encode_utf8(h)) by {
        assert forall|i: int| 0 <= i < h.len() implies e.skip(7)[i] == encode_utf8(h)[i] by {
            assert(t[i + 7] == h[i]);
            assert(t[i + 7] as u8 == e[i + 7]);
        }
    }
}

} // verus!
