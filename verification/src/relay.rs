//! The relay's data types and the pure parts of its blob sidecar:
//! content-addressed blob paths, blob id parsing, HTTP byte ranges, and
//! chunk proofs.

use vstd::prelude::*;
use vstd::slice::slice_subrange;
use vstd::string::*;
use crate::ids::{BlobId, spec_parse_uri, spec_parse_hex32, spec_hex};
use crate::blob::{ChunkTree, StreamHash, CHUNK_SIZE, chunk_count, blob_leaves, path, digests};
use crate::crypto::blake3_digest;
use crate::error::Error;
use crate::text::{string_push, bytes_eq};
use crate::paths::{FilePath, texts};
use crate::kinds::fields::own;

verus! {

/// Query parameters of the chunk-proof endpoint: `?chunk=<index>`.
#[derive(Debug, Clone, Copy, PartialEq, Eq)]
pub struct ProofQuery {
    pub chunk: u64,
}

/// A record the relay has just accepted and stored, as handed to live
/// subscriptions and gossip.
#[derive(Debug, Clone)]
pub struct AcceptedRecord {
    pub id: [u8; 32],
    pub kind: u64,
    pub author: [u8; 32],
    pub ref_hashes: Vec<[u8; 32]>,
    pub seq: u64,
    pub bytes: Vec<u8>,
}

/// The outcome of storing a record.
#[derive(Debug, Clone, Copy, PartialEq, Eq)]
pub enum InsertOutcome {
    /// Newly stored, assigned this receipt sequence.
    Inserted(u64),
    /// A record with this id was already stored: not re-stored,
    /// re-sequenced, or re-gossiped, but not an error either.
    Duplicate,
}

/// A stored record as returned by a store query.
#[derive(Debug, Clone, PartialEq, Eq)]
pub struct StoredRecord {
    /// Relay-local receipt sequence.
    pub seq: u64,
    /// The canonical envelope bytes as received.
    pub bytes: Vec<u8>,
}

/// The current Unix time in seconds; 0 if the clock is before 1970.
///
/// Trusted: `std::time::SystemTime::now` and `duration_since`; nothing
/// is stated of the time.
#[verifier::external_body]
pub fn current_unix_time() -> i64 {
    std::time::SystemTime::now()
        .duration_since(std::time::UNIX_EPOCH)
        .map(|d| d.as_secs() as i64)
        .unwrap_or(0)
}

/// The first `n` characters of a string, as a new string.
fn prefix_string(s: &String, n: usize) -> (r: String)
    requires
        n <= s@.len(),
    ensures
        r@ == s@.subrange(0, n as int),
{
    substring(s, 0, n)
}

/// Characters `start..end` of a string, as a new string.
fn substring(s: &String, start: usize, end: usize) -> (r: String)
    requires
        start <= end <= s@.len(),
    ensures
        r@ == s@.subrange(start as int, end as int),
{
    let t = s.as_str();
    let mut r = String::new();
    let mut i = start;
    while i < end
        invariant
            start <= i <= end,
            end <= t@.len(),
            t@ == s@,
            r@ == s@.subrange(start as int, i as int),
        decreases end - i,
    {
        let c = t.get_char(i);
        proof {
            assert(s@.subrange(start as int, i + 1) =~= s@.subrange(start as int, i as int).push(c));
        }
        string_push(&mut r, c);
        i = i + 1;
    }
    r
}

/// The content-addressed path of a blob: `dir/<hex[0..2]>/<hex[2..4]>/<hex>`.
pub fn blob_path(dir: &str, id: &BlobId) -> (p: FilePath)
    ensures
        p@ == seq![dir@, spec_hex(id.0@).subrange(0, 2), spec_hex(id.0@).subrange(2, 4), spec_hex(id.0@)],
{
    let hex = id.to_hex();
    let a = prefix_string(&hex, 2);
    let b = substring(&hex, 2, 4);
    let parts = vec![own(dir), a, b, hex];
    proof {
        assert(texts(parts@) =~= seq![dir@, spec_hex(id.0@).subrange(0, 2), spec_hex(id.0@).subrange(2, 4), spec_hex(id.0@)]);
    }
    FilePath::from_parts(parts)
}

/// A blob id in either text form: `b3-256:<hex>` or bare hex.
pub fn parse_blob_id(s: &str) -> (r: Option<BlobId>)
    ensures
        match r {
            Some(id) => spec_parse_uri(s.spec_bytes()) == Some(id.0@) || (spec_parse_uri(s.spec_bytes()) is None
                && spec_parse_hex32(s.spec_bytes()) == Some(id.0@)),
            None => spec_parse_uri(s.spec_bytes()) is None && spec_parse_hex32(s.spec_bytes()) is None,
        },
{
    match BlobId::from_uri(s) {
        Some(id) => Some(id),
        None => BlobId::from_hex(s),
    }
}

/// The value of a string of decimal digits.
pub open spec fn digits_value(d: Seq<u8>) -> int
    decreases d.len(),
{
    if d.len() == 0 {
        0
    } else {
        digits_value(d.drop_last()) * 10 + (d.last() - 48)
    }
}

/// Whether every byte is an ASCII digit.
pub open spec fn all_digits(d: Seq<u8>) -> bool {
    forall|i: int| 0 <= i < d.len() ==> 48 <= #[trigger] d[i] <= 57
}

/// A decimal `u64` as Rust's `str::parse::<u64>` reads it: an optional
/// `+`, then one or more digits, with a value that fits.
pub open spec fn spec_parse_u64(b: Seq<u8>) -> Option<u64> {
    let d = if b.len() > 0 && b[0] == 43 {
        b.skip(1)
    } else {
        b
    };
    if d.len() > 0 && all_digits(d) && digits_value(d) <= u64::MAX {
        Some(digits_value(d) as u64)
    } else {
        None
    }
}

proof fn lemma_digits_value_mono(d: Seq<u8>, i: int)
    requires
        all_digits(d),
        0 <= i <= d.len(),
    ensures
        digits_value(d.take(i)) <= digits_value(d),
        0 <= digits_value(d.take(i)),
    decreases d.len() - i,
{
    if i < d.len() {
        lemma_digits_value_mono(d, i + 1);
        let t = d.take(i + 1);
        assert(t.drop_last() =~= d.take(i));
        lemma_digits_value_nonneg(d.take(i));
    } else {
        assert(d.take(i) =~= d);
        lemma_digits_value_nonneg(d);
    }
}

proof fn lemma_digits_value_nonneg(d: Seq<u8>)
    requires
        all_digits(d),
    ensures
        0 <= digits_value(d),
    decreases d.len(),
{
    if d.len() > 0 {
        lemma_digits_value_nonneg(d.drop_last());
    }
}

/// Parse a decimal `u64` the way `str::parse::<u64>` does.
pub fn parse_u64(b: &[u8]) -> (r: Option<u64>)
    ensures
        r == spec_parse_u64(b@),
{
    let start: usize = if b.len() > 0 && b[0] == 43 {
        1
    } else {
        0
    };
    let ghost d = if b@.len() > 0 && b@[0] == 43 {
        b@.skip(1)
    } else {
        b@
    };
    proof {
        assert(d =~= b@.skip(start as int));
    }
    if start == b.len() {
        return None;
    }
    let mut v: u64 = 0;
    let mut i: usize = start;
    while i < b.len()
        invariant
            start <= i <= b.len(),
            start < b.len(),
            d == b@.skip(start as int),
            d == (if b@.len() > 0 && b@[0] == 43 {
                b@.skip(1)
            } else {
                b@
            }),
            all_digits(d.take(i - start)),
            v == digits_value(d.take(i - start)),
        decreases b.len() - i,
    {
        let c = b[i];
        proof {
            let t = d.take(i - start + 1);
            assert(t.drop_last() =~= d.take(i - start));
            assert(t.last() == c);
        }
        if c < 48 || c > 57 {
            proof {
                assert(d[i - start] == c);
                assert(!all_digits(d));
            }
            return None;
        }
        let dig = (c - 48) as u64;
        if v > (u64::MAX - dig) / 10 {
            proof {
                let t = d.take(i - start + 1);
                assert(all_digits(t));
                assert(digits_value(t) == v * 10 + dig);
                assert(digits_value(t) > u64::MAX) by (nonlinear_arith)
                    requires
                        v > (u64::MAX - dig) / 10,
                        dig <= 9,
                        digits_value(t) == v * 10 + dig,
                {
                }
                if all_digits(d) {
                    lemma_digits_value_mono(d, i - start + 1);
                }
            }
            return None;
        }
        proof {
            assert(v * 10 + dig <= u64::MAX) by (nonlinear_arith)
                requires
                    v <= (u64::MAX - dig) / 10,
                    dig <= 9,
            {
            }
        }
        v = v * 10 + dig;
        i = i + 1;
    }
    proof {
        assert(d.take(i - start) =~= d);
    }
    Some(v)
}

/// The bytes of `bytes=`.
pub open spec fn range_prefix() -> Seq<u8> {
    seq![98u8, 121, 116, 101, 115, 61]
}

/// The index of the first `-` in `b`, if any.
pub open spec fn first_dash(b: Seq<u8>) -> Option<int> {
    if exists|k: int| 0 <= k < b.len() && b[k] == 45 {
        Some(choose|k: int| 0 <= k < b.len() && b[k] == 45 && forall|j: int| 0 <= j < k ==> b[j] != 45)
    } else {
        None
    }
}

/// The range given by the two sides of the dash, for a blob of `total`
/// bytes.
#[verifier::opaque]
pub open spec fn spec_range_parts(start_s: Seq<u8>, end_s: Seq<u8>, total: u64) -> Option<(u64, u64)> {
    if start_s.len() == 0 {
        match spec_parse_u64(end_s) {
            None => None,
            Some(suffix) => if suffix == 0 || total == 0 {
                None
            } else {
                let s = if suffix < total { suffix } else { total };
                Some(((total - s) as u64, (total - 1) as u64))
            },
        }
    } else {
        match spec_parse_u64(start_s) {
            None => None,
            Some(start) => if start >= total {
                None
            } else {
                let end_opt = if end_s.len() == 0 {
                    Some((total - 1) as u64)
                } else {
                    spec_parse_u64(end_s)
                };
                match end_opt {
                    None => None,
                    Some(end) => if end < start {
                        None
                    } else {
                        Some((start, if end < total - 1 { end } else { (total - 1) as u64 }))
                    },
                }
            },
        }
    }
}

/// Where the dash of a single range spec is: `None` when there is a
/// comma (several ranges) or no dash.
#[verifier::opaque]
pub open spec fn range_dash(spec: Seq<u8>) -> Option<int> {
    if exists|k: int| 0 <= k < spec.len() && spec[k] == 44 {
        None
    } else {
        first_dash(spec)
    }
}

/// The byte range a single `Range: bytes=...` header asks for in a blob
/// of `total` bytes, as inclusive `(start, end)`; `None` when it is
/// malformed, unsatisfiable, or asks for more than one range.
pub open spec fn spec_parse_range(h: Seq<u8>, total: u64) -> Option<(u64, u64)> {
    if h.len() < 6 || h.subrange(0, 6) != range_prefix() {
        None
    } else {
        let spec = h.skip(6);
        match range_dash(spec) {
            None => None,
            Some(k) => spec_range_parts(spec.take(k), spec.skip(k + 1), total),
        }
    }
}

fn scan_range_spec(spec: &[u8]) -> (r: Option<usize>)
    ensures
        r matches Some(k) ==> k < spec@.len(),
        match r {
            Some(d) => range_dash(spec@) == Some(d as int),
            None => range_dash(spec@) is None,
        },
{
    let mut dash: usize = spec.len();
    let mut i: usize = 0;
    while i < spec.len()
        invariant
            i <= spec.len(),
            dash <= spec.len(),
            forall|j: int| 0 <= j < i ==> spec@[j] != 44,
            dash < spec.len() ==> dash < i && spec@[dash as int] == 45 && forall|j: int|
                0 <= j < dash ==> spec@[j] != 45,
            dash == spec.len() ==> forall|j: int| 0 <= j < i ==> spec@[j] != 45,
        decreases spec.len() - i,
    {
        if spec[i] == 44 {
            proof {
                reveal(range_dash);
            }
            return None;
        }
        if spec[i] == 45 && dash == spec.len() {
            dash = i;
        }
        i = i + 1;
    }
    proof {
        reveal(range_dash);
    }
    if dash == spec.len() {
        return None;
    }
    proof {
        let sp = spec@;
        assert(sp[dash as int] == 45);
        assert(first_dash(sp) == Some(dash as int)) by {
            let k = choose|k: int| 0 <= k < sp.len() && sp[k] == 45 && forall|j: int| 0 <= j < k ==> sp[j] != 45;
            if k < dash {
            } else if k > dash {
            }
        }
    }
    Some(dash)
}

fn range_from_parts(start_s: &[u8], end_s: &[u8], total_len: u64) -> (r: Option<(u64, u64)>)
    ensures
        r == spec_range_parts(start_s@, end_s@, total_len),
{
    reveal(spec_range_parts);
    if start_s.len() == 0 {
        let suffix = match parse_u64(end_s) {
            Some(v) => v,
            None => {
                return None;
            },
        };
        if suffix == 0 || total_len == 0 {
            return None;
        }
        let s = if suffix < total_len {
            suffix
        } else {
            total_len
        };
        return Some((total_len - s, total_len - 1));
    }
    let start = match parse_u64(start_s) {
        Some(v) => v,
        None => {
            return None;
        },
    };
    if start >= total_len {
        return None;
    }
    let end: u64 = if end_s.len() == 0 {
        total_len - 1
    } else {
        match parse_u64(end_s) {
            Some(v) => v,
            None => {
                return None;
            },
        }
    };
    if end < start {
        return None;
    }
    let last = total_len - 1;
    Some((start, if end < last { end } else { last }))
}

fn has_range_prefix(h: &[u8]) -> (b: bool)
    ensures
        b == (h@.len() >= 6 && h@.subrange(0, 6) == range_prefix()),
{
    if h.len() < 6 || h[0] != 98 || h[1] != 121 || h[2] != 116 || h[3] != 101 || h[4] != 115
        || h[5] != 61 {
        proof {
            if h@.len() >= 6 && h@.subrange(0, 6) == range_prefix() {
                assert(h@.subrange(0, 6)[0] == h@[0]);
                assert(h@.subrange(0, 6)[1] == h@[1]);
                assert(h@.subrange(0, 6)[2] == h@[2]);
                assert(h@.subrange(0, 6)[3] == h@[3]);
                assert(h@.subrange(0, 6)[4] == h@[4]);
                assert(h@.subrange(0, 6)[5] == h@[5]);
            }
        }
        return false;
    }
    proof {
        assert(h@.subrange(0, 6) =~= range_prefix());
    }
    true
}

/// Parse a single `Range: bytes=...` value against a known total
/// length: `None` for anything unsatisfiable, malformed, or a
/// multi-range request.
pub fn parse_range(header: &str, total_len: u64) -> (r: Option<(u64, u64)>)
    ensures
        r == spec_parse_range(header.spec_bytes(), total_len),
{
    let h = header.as_bytes();
    if !has_range_prefix(h) {
        return None;
    }
    let spec = slice_subrange(h, 6, h.len());
    proof {
        assert(spec@ =~= h@.skip(6));
    }
    let dash = match scan_range_spec(spec) {
        Some(d) => d,
        None => {
            return None;
        },
    };
    let start_s = slice_subrange(spec, 0, dash);
    let end_s = slice_subrange(spec, dash + 1, spec.len());
    proof {
        assert(start_s@ =~= spec@.take(dash as int));
        assert(end_s@ =~= spec@.skip(dash + 1));
        assert(h@ == header.spec_bytes());
        assert(h@.len() >= 6 && h@.subrange(0, 6) == range_prefix());
        assert(range_dash(h@.skip(6)) == Some(dash as int));
        assert(spec_parse_range(h@, total_len) == spec_range_parts(h@.skip(6).take(dash as int), h@.skip(6).skip(dash + 1), total_len));
    }
    range_from_parts(start_s, end_s, total_len)
}

/// A chunk proof for a blob: the chunk index and its sibling path, or
/// `Err(ChunkProof)` when the index is past the last chunk.
pub fn compute_chunk_proof(blob_bytes: &[u8], chunk_index: u64) -> (res: Result<(u64, Vec<[u8; 32]>), Error>)
    ensures
        chunk_index >= chunk_count(blob_bytes@.len() as int) ==> res == Err::<(u64, Vec<[u8; 32]>), Error>(
            Error::ChunkProof("chunk index out of range"),
        ),
        chunk_index < chunk_count(blob_bytes@.len() as int) ==> (res matches Ok((i, p)) && i == chunk_index
            && digests(p@) == path(blob_leaves(blob_bytes@), chunk_index as int)),
{
    let tree = ChunkTree::from_bytes(blob_bytes);
    let n = tree.n_chunks();
    if chunk_index >= n as u64 {
        return Err(Error::ChunkProof("chunk index out of range"));
    }
    match tree.prove(chunk_index as usize) {
        Ok(siblings) => Ok((chunk_index, siblings)),
        Err(e) => Err(e),
    }
}

/// A parsed range lies within the blob and is not empty.
proof fn lemma_range_ordered(h: Seq<u8>, total: u64)
    ensures
        spec_parse_range(h, total) is Some ==> (spec_parse_range(h, total)->0).0 <= (spec_parse_range(h, total)->0).1
            < total,
{
    if h.len() >= 6 && h.subrange(0, 6) == range_prefix() {
        let spec = h.skip(6);
        if let Some(k) = range_dash(spec) {
            lemma_parts_ordered(spec.take(k), spec.skip(k + 1), total);
        }
    }
}

proof fn lemma_parts_ordered(a: Seq<u8>, b: Seq<u8>, total: u64)
    ensures
        spec_range_parts(a, b, total) is Some ==> (spec_range_parts(a, b, total)->0).0 <= (spec_range_parts(a, b, total)->0).1
            < total,
{
    reveal(spec_range_parts);
}

/// How a blob is served for a request with the given `Range` header.
#[derive(Debug, Clone, Copy, PartialEq, Eq)]
pub enum RangePlan {
    /// The whole blob, `len` bytes.
    Full { len: u64 },
    /// `len` bytes from `start`.
    Partial { start: u64, len: u64 },
    /// A `Range` header was given but cannot be met.
    Unsatisfiable,
}

/// What to serve of a blob of `total_len` bytes: everything when no
/// `Range` header was sent, the single range it asks for, or a refusal
/// when it cannot be met.
pub fn range_plan(range_header: Option<&str>, total_len: u64) -> (p: RangePlan)
    ensures
        p == match range_header {
            None => RangePlan::Full { len: total_len },
            Some(h) => match spec_parse_range(h.spec_bytes(), total_len) {
                None => RangePlan::Unsatisfiable,
                Some((s, e)) => RangePlan::Partial { start: s, len: (e - s + 1) as u64 },
            },
        },
{
    match range_header {
        None => RangePlan::Full { len: total_len },
        Some(h) => match parse_range(h, total_len) {
            None => RangePlan::Unsatisfiable,
            Some((s, e)) => {
                proof {
                    lemma_range_ordered(h.spec_bytes(), total_len);
                }
                RangePlan::Partial { start: s, len: e - s + 1 }
            },
        },
    }
}

/// What became of a blob upload.
#[derive(Debug, Clone, Copy, PartialEq, Eq)]
pub enum BlobPutOutcome {
    /// Stored under the id derived from its content.
    Stored(BlobId),
    /// More than the configured maximum was sent.
    TooLarge,
    /// The uploader declared an id that the content does not hash to.
    HashMismatch,
}

/// A blob upload in progress: the content is hashed as it streams in
/// and refused as soon as it passes the size limit. The server derives
/// the id itself; a declared id is only checked against it.
pub struct BlobUpload {
    hash: StreamHash,
    max_bytes: u64,
}

impl BlobUpload {
    /// The bytes taken so far.
    pub closed spec fn data(&self) -> Seq<u8> {
        self.hash.data()
    }

    /// The size limit.
    pub closed spec fn limit(&self) -> u64 {
        self.max_bytes
    }

    /// Well-formed: the hash state is consistent and within the limit.
    pub closed spec fn wf(&self) -> bool {
        self.hash.wf() && self.hash.data().len() <= self.max_bytes
    }

    /// An upload of at most `max_bytes` bytes.
    pub fn new(max_bytes: u64) -> (u: BlobUpload)
        ensures
            u.wf(),
            u.data() == Seq::<u8>::empty(),
            u.limit() == max_bytes,
    {
        BlobUpload { hash: StreamHash::new(), max_bytes }
    }

    /// Take the next piece of the body: `false`, taking nothing, when
    /// the total would pass the limit (the upload is then refused).
    pub fn accept(&mut self, piece: &[u8]) -> (ok: bool)
        requires
            old(self).wf(),
        ensures
            final(self).wf(),
            final(self).limit() == old(self).limit(),
            ok == (old(self).data().len() + piece@.len() <= old(self).limit()),
            ok ==> final(self).data() == old(self).data() + piece@,
            !ok ==> final(self).data() == old(self).data(),
    {
        let taken = self.hash.total();
        if piece.len() as u64 > self.max_bytes - taken {
            return false;
        }
        self.hash.feed(piece);
        true
    }

    /// The outcome once the body is complete: the derived id, unless a
    /// declared id differs from it.
    pub fn finish(&self, expected: Option<BlobId>) -> (o: BlobPutOutcome)
        requires
            self.wf(),
        ensures
            match expected {
                Some(e) if e.0@ != blake3_digest(self.data()) => o == BlobPutOutcome::HashMismatch,
                _ => o matches BlobPutOutcome::Stored(id) && id.0@ == blake3_digest(self.data()),
            },
    {
        let (id, _) = self.hash.finish();
        match expected {
            Some(e) => {
                if bytes_eq(&e.0, &id.0) {
                    BlobPutOutcome::Stored(id)
                } else {
                    BlobPutOutcome::HashMismatch
                }
            },
            None => BlobPutOutcome::Stored(id),
        }
    }
}

/// The only dash of `start-end`, both sides digits, is the one between
/// them.
proof fn lemma_digit_sides_dash(sd: Seq<u8>, ed: Seq<u8>)
    requires
        all_digits(sd),
        all_digits(ed),
    ensures
        range_dash(sd + seq![45u8] + ed) == Some(sd.len() as int),
        (sd + seq![45u8] + ed).take(sd.len() as int) == sd,
        (sd + seq![45u8] + ed).skip(sd.len() as int + 1) == ed,
{
    let spec = sd + seq![45u8] + ed;
    let k = sd.len() as int;
    assert(spec[k] == 45);
    assert forall|j: int| 0 <= j < spec.len() implies spec[j] != 44 by {
        if j < k {
            assert(spec[j] == sd[j]);
        } else if j > k {
            assert(spec[j] == ed[j - k - 1]);
        }
    }
    assert forall|j: int| 0 <= j < k implies spec[j] != 45 by {
        assert(spec[j] == sd[j]);
    }
    reveal(range_dash);
    assert(first_dash(spec) == Some(k)) by {
        let c = choose|c: int| 0 <= c < spec.len() && spec[c] == 45 && forall|j: int| 0 <= j < c ==> spec[j] != 45;
        if c < k {
            assert(spec[c] == sd[c]);
        }
    }
    assert(spec.take(k) =~= sd);
    assert(spec.skip(k + 1) =~= ed);
}

/// A non-empty string of digits whose value fits reads as that value.
proof fn lemma_digits_parse(d: Seq<u8>)
    requires
        d.len() > 0,
        all_digits(d),
        digits_value(d) <= u64::MAX,
    ensures
        0 <= digits_value(d),
        spec_parse_u64(d) == Some(digits_value(d) as u64),
{
    lemma_digits_value_nonneg(d);
    assert(d[0] != 43);
}

/// A single range `bytes=<start>-<end>`, written in decimal digits, that
/// starts inside a blob of `total` bytes and does not end before it
/// starts, is satisfiable: it gives `start` and `end` capped at the last
/// byte. In particular a one-byte range (`end == start`) is served.
pub proof fn lemma_range_satisfiable(sd: Seq<u8>, ed: Seq<u8>, total: u64)
    requires
        sd.len() > 0,
        ed.len() > 0,
        all_digits(sd),
        all_digits(ed),
        digits_value(sd) < total,
        digits_value(sd) <= digits_value(ed) <= u64::MAX,
    ensures
        spec_parse_range(range_prefix() + sd + seq![45u8] + ed, total) == Some(
            (
                digits_value(sd) as u64,
                if digits_value(ed) < total - 1 {
                    digits_value(ed) as u64
                } else {
                    (total - 1) as u64
                },
            ),
        ),
{
    let h = range_prefix() + sd + seq![45u8] + ed;
    let spec = sd + seq![45u8] + ed;
    assert(h.subrange(0, 6) =~= range_prefix());
    assert(h.skip(6) =~= spec);
    lemma_digit_sides_dash(sd, ed);
    lemma_digits_parse(sd);
    lemma_digits_parse(ed);
    assert(spec_parse_range(h, total) == spec_range_parts(sd, ed, total));
    reveal(spec_range_parts);
}

} // verus!
