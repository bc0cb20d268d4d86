//! Bundles: single-file, self-verifying containers of records and
//! blobs.
//!
//! A bundle is the magic `EVMS` and a version byte, then a sequence of
//! canonical CBOR items: a header `["hdr", {}]`, records `["r", bytes]`,
//! blobs `["b", id, content]` (or, for large blobs, parts
//! `["bp", id, index, part]`), and `["end", records, blobs]`. Import
//! salvages every valid item and reports the rest.

use vstd::prelude::*;
use crate::error::Error;
use crate::codec::{Value, Model, enc, model_list, lemma_model_list, canon, canon_ok, canon_ok_list, canon_list, canon_keyed, canon_ok_entries, encode_canonical};
use crate::order::{sort_by_key, payloads, strictly_increasing};
use crate::decode::{decode_canonical, decodable, lemma_decodable_sized};
use crate::cbor_lemmas::{lemma_enc_unique, prefix_at};
use crate::record::{Record, RecordModel, model_ok, envelope, spec_record_id, record_of_bytes, lemma_record_of_bytes, sig_valid, verify_error};
use crate::error::error_text;
use crate::ids::spec_hex;
use crate::json::dec_digits;
use crate::kinds::fields::own;
use crate::ids::BlobId;
use crate::blob::{CHUNK_SIZE, hash_blob, chunk_count, chunk_of};
use crate::crypto::blake3_digest;
use crate::text::{bytes_eq, bytes_to_vec, extend_bytes, concat, str_debug, str_debug_text};
use crate::json::{decimal, chars_to_string};
use crate::kinds::fields::text_value;
use crate::codec::model_entries;

verus! {

/// Bundle magic: `EVMS` and format version 1.
pub const MAGIC: [u8; 5] = [69, 86, 77, 83, 1];

/// Blobs larger than this are written as parts.
pub const PART_SPLIT_THRESHOLD: usize = 16777216;

/// The largest byte or text string an item may hold.
pub const MAX_ITEM_STRING: u64 = 67108864;

/// The nesting limit of an item: a container may open only while fewer
/// than this many levels are open.
pub const MAX_ITEM_DEPTH: u64 = 64;

// ---------------------------------------------------------------------
// Item boundaries
// ---------------------------------------------------------------------

/// The big-endian value of bytes.
pub open spec fn be_value(b: Seq<u8>) -> nat
    decreases b.len(),
{
    if b.len() == 0 {
        0
    } else {
        be_value(b.drop_last()) * 256 + b.last() as nat
    }
}

/// The argument of the item head at `pos` and the position after it;
/// `None` when the head is truncated or uses an indefinite or reserved
/// length.
pub open spec fn head_arg(b: Seq<u8>, pos: int) -> Option<(nat, int)> {
    let add = b[pos] % 32;
    if add < 24 {
        Some((add as nat, pos + 1))
    } else if add < 28 {
        let n: int = if add == 24 {
            1
        } else if add == 25 {
            2
        } else if add == 26 {
            4
        } else {
            8
        };
        if pos + 1 + n > b.len() {
            None
        } else {
            Some((be_value(b.subrange(pos + 1, pos + 1 + n)), pos + 1 + n))
        }
    } else {
        None
    }
}

/// The end of the complete item at `pos`, nested `d` levels deep; `None`
/// when it is truncated or not allowed (a tag, an indefinite length, a
/// string over the limit, a container opened at the depth limit).
pub open spec fn item_end(b: Seq<u8>, pos: int, d: int) -> Option<int>
    decreases b.len() - pos, 0int,
{
    if pos < 0 || pos >= b.len() {
        None
    } else {
        match head_arg(b, pos) {
            None => None,
            Some((arg, hend)) => {
                let major = b[pos] / 32;
                if major == 0 || major == 1 || major == 7 {
                    Some(hend)
                } else if major == 2 || major == 3 {
                    if arg > MAX_ITEM_STRING || hend + arg > b.len() {
                        None
                    } else {
                        Some(hend + arg)
                    }
                } else if major == 4 || major == 5 {
                    let count: nat = if major == 4 {
                        arg
                    } else {
                        2 * arg
                    };
                    if d + 1 >= MAX_ITEM_DEPTH || count > u64::MAX {
                        None
                    } else {
                        items_end(b, hend, count, d + 1)
                    }
                } else {
                    None
                }
            },
        }
    }
}

/// The end of `count` complete items from `pos`, `d` levels deep.
pub open spec fn items_end(b: Seq<u8>, pos: int, count: nat, d: int) -> Option<int>
    decreases b.len() - pos, 1int, count,
{
    if count == 0 {
        Some(pos)
    } else if pos < 0 || pos >= b.len() {
        None
    } else {
        match item_end(b, pos, d) {
            Some(e) => if pos < e <= b.len() {
                items_end(b, e, (count - 1) as nat, d)
            } else {
                None
            },
            None => None,
        }
    }
}

/// Why the item at `pos`, nested `d` levels deep, has no end (see
/// [`item_end`]): the first fault met reading it in order.
pub open spec fn item_fault(b: Seq<u8>, pos: int, d: int) -> Seq<char>
    decreases b.len() - pos, 0int,
{
    if pos < 0 || pos >= b.len() {
        "truncated item"@
    } else if b[pos] % 32 >= 28 {
        "indefinite or reserved length in item"@
    } else {
        match head_arg(b, pos) {
            None => "truncated item"@,
            Some((arg, hend)) => {
                let major = b[pos] / 32;
                if major == 2 || major == 3 {
                    if arg > MAX_ITEM_STRING {
                        "item too large"@
                    } else {
                        "truncated item"@
                    }
                } else if major == 4 || major == 5 {
                    let count: nat = if major == 4 {
                        arg
                    } else {
                        2 * arg
                    };
                    if d + 1 >= MAX_ITEM_DEPTH {
                        "item too deep"@
                    } else if count > u64::MAX {
                        "item too large"@
                    } else {
                        items_fault(b, hend, count, d + 1)
                    }
                } else {
                    "tag in item"@
                }
            },
        }
    }
}

/// Why `count` items from `pos` have no end (see [`items_end`]).
pub open spec fn items_fault(b: Seq<u8>, pos: int, count: nat, d: int) -> Seq<char>
    decreases b.len() - pos, 1int, count,
{
    if count == 0 || pos < 0 || pos >= b.len() {
        "truncated item"@
    } else {
        match item_end(b, pos, d) {
            Some(e) => if pos < e <= b.len() {
                items_fault(b, e, (count - 1) as nat, d)
            } else {
                "truncated item"@
            },
            None => item_fault(b, pos, d),
        }
    }
}

/// What reading an item at `pos` gives: `Some(None)` at the end of the
/// input, `Some(Some(end))` for a complete item, `None` for a truncated
/// or disallowed one.
pub open spec fn read_item_at(b: Seq<u8>, pos: int) -> Option<Option<int>> {
    if pos >= b.len() {
        Some(None)
    } else {
        match item_end(b, pos, 0) {
            Some(e) => Some(Some(e)),
            None => None,
        }
    }
}

pub(crate) proof fn lemma_be_step(b: Seq<u8>, k: int)
    requires
        0 <= k < b.len(),
    ensures
        be_value(b.subrange(0, k + 1)) == be_value(b.subrange(0, k)) * 256 + b[k] as nat,
{
    assert(b.subrange(0, k + 1).drop_last() =~= b.subrange(0, k));
}

/// Reads the head at `pos`.
fn read_head(b: &[u8], pos: usize) -> (r: Option<(u64, usize)>)
    requires
        pos < b@.len(),
    ensures
        match head_arg(b@, pos as int) {
            Some((a, e)) => r == Some((a as u64, e as usize)) && a <= u64::MAX,
            None => r is None,
        },
{
    let add = b[pos] % 32;
    if add < 24 {
        return Some((add as u64, pos + 1));
    }
    if add >= 28 {
        return None;
    }
    let n: usize = if add == 24 {
        1
    } else if add == 25 {
        2
    } else if add == 26 {
        4
    } else {
        8
    };
    if b.len() - pos - 1 < n {
        return None;
    }
    let ghost s = b@.subrange(pos + 1, pos + 1 + n);
    let mut v: u64 = 0;
    let mut i: usize = 0;
    while i < n
        invariant
            i <= n <= 8,
            pos + 1 + n <= b.len(),
            s == b@.subrange(pos + 1, pos + 1 + n),
            v == be_value(s.subrange(0, i as int)),
            v < pow256(i as nat),
        decreases n - i,
    {
        proof {
            lemma_be_step(s, i as int);
            assert(s[i as int] == b@[pos + 1 + i]);
            lemma_pow256(i as nat);
        }
        v = v * 256 + b[pos + 1 + i] as u64;
        i = i + 1;
    }
    assert(s.subrange(0, n as int) =~= s);
    Some((v, pos + 1 + n))
}

/// 256 to the power `i`.
pub open spec fn pow256(i: nat) -> nat
    decreases i,
{
    if i == 0 {
        1
    } else {
        256 * pow256((i - 1) as nat)
    }
}

proof fn lemma_pow256(i: nat)
    requires
        i < 8,
    ensures
        pow256(i) * 256 == pow256(i + 1),
        pow256(i + 1) <= 0x1_0000_0000_0000_0000,
{
    reveal_with_fuel(pow256, 9);
}

/// The end of the complete item at `pos` (see [`item_end`]), or why it
/// has none (see [`item_fault`]).
fn item_end_at(b: &[u8], pos: usize, d: u64) -> (r: Result<usize, &'static str>)
    requires
        d < MAX_ITEM_DEPTH,
    ensures
        match item_end(b@, pos as int, d as int) {
            Some(e) => r matches Ok(x) && x as int == e,
            None => r matches Err(m) && m@ == item_fault(b@, pos as int, d as int),
        },
    decreases b@.len() - pos, 0int,
{
    if pos >= b.len() {
        return Err("truncated item");
    }
    if b[pos] % 32 >= 28 {
        return Err("indefinite or reserved length in item");
    }
    let (arg, hend) = match read_head(b, pos) {
        Some(x) => x,
        None => {
            return Err("truncated item");
        },
    };
    let major = b[pos] / 32;
    if major == 0 || major == 1 || major == 7 {
        Ok(hend)
    } else if major == 2 || major == 3 {
        if arg > MAX_ITEM_STRING {
            Err("item too large")
        } else if arg > (b.len() - hend) as u64 {
            Err("truncated item")
        } else {
            Ok(hend + arg as usize)
        }
    } else if major == 4 || major == 5 {
        if d + 1 >= MAX_ITEM_DEPTH {
            return Err("item too deep");
        }
        let count: u64 = if major == 4 {
            arg
        } else {
            if arg > u64::MAX / 2 {
                return Err("item too large");
            }
            2 * arg
        };
        items_end_at(b, hend, count, d + 1)
    } else {
        Err("tag in item")
    }
}

/// The end of `count` complete items from `pos` (see [`items_end`]), or
/// why they have none (see [`items_fault`]).
fn items_end_at(b: &[u8], pos: usize, count: u64, d: u64) -> (r: Result<usize, &'static str>)
    requires
        d < MAX_ITEM_DEPTH,
        pos <= b@.len(),
    ensures
        match items_end(b@, pos as int, count as nat, d as int) {
            Some(e) => r matches Ok(x) && x as int == e,
            None => r matches Err(m) && m@ == items_fault(b@, pos as int, count as nat, d as int),
        },
    decreases b@.len() - pos, 1int, count,
{
    let mut p = pos;
    let mut left = count;
    while left > 0
        invariant
            pos <= p <= b@.len(),
            d < MAX_ITEM_DEPTH,
            items_end(b@, pos as int, count as nat, d as int) == items_end(b@, p as int, left as nat, d as int),
            items_fault(b@, pos as int, count as nat, d as int) == items_fault(b@, p as int, left as nat, d as int),
        decreases b@.len() - p, left,
    {
        if p >= b.len() {
            return Err("truncated item");
        }
        let e = match item_end_at(b, p, d) {
            Ok(e) => e,
            Err(m) => {
                return Err(m);
            },
        };
        if e <= p || e > b.len() {
            return Err("truncated item");
        }
        proof {
            assert(((left as nat) - 1) as nat == (left - 1) as nat);
            assert(items_end(b@, p as int, left as nat, d as int) == items_end(b@, e as int, (left - 1) as nat, d as int));
            assert(items_fault(b@, p as int, left as nat, d as int) == items_fault(b@, e as int, (left - 1) as nat, d as int));
        }
        p = e;
        left = left - 1;
    }
    Ok(p)
}


/// Reads one complete item's bytes at `pos`: `Ok(None)` at the end of
/// the input, otherwise the item and the position after it; an item
/// that is truncated or not allowed is an error naming the first fault
/// (see [`item_fault`]).
fn read_item(b: &[u8], pos: usize) -> (r: Result<Option<(Vec<u8>, usize)>, Error>)
    requires
        pos <= b@.len(),
    ensures
        match read_item_at(b@, pos as int) {
            Some(None) => r == Ok::<Option<(Vec<u8>, usize)>, Error>(None),
            Some(Some(e)) => r matches Ok(Some((item, e2))) && e2 as int == e && pos < e <= b@.len()
                && item@ == b@.subrange(pos as int, e),
            None => r matches Err(Error::Bundle(m)) && m@ == item_fault(b@, pos as int, 0),
        },
{
    if pos >= b.len() {
        return Ok(None);
    }
    match item_end_at(b, pos, 0) {
        Ok(e) => {
            if e <= pos || e > b.len() {
                proof {
                    lemma_item_end_bounds(b@, pos as int, 0);
                }
                return Err(Error::Bundle("truncated item"));
            }
            let mut item: Vec<u8> = Vec::new();
            let mut i = pos;
            while i < e
                invariant
                    pos <= i <= e <= b@.len(),
                    item@ == b@.subrange(pos as int, i as int),
                decreases e - i,
            {
                item.push(b[i]);
                assert(item@ =~= b@.subrange(pos as int, i + 1));
                i = i + 1;
            }
            Ok(Some((item, e)))
        },
        Err(m) => Err(Error::Bundle(m)),
    }
}

pub proof fn lemma_item_end_bounds(b: Seq<u8>, pos: int, d: int)
    requires
        item_end(b, pos, d) is Some,
    ensures
        pos < item_end(b, pos, d)->0 <= b.len(),
    decreases b.len() - pos, 0int,
{
    let (arg, hend) = head_arg(b, pos)->0;
    let major = b[pos] / 32;
    if major == 4 || major == 5 {
        let count: nat = if major == 4 {
            arg
        } else {
            2 * arg
        };
        lemma_items_end_bounds(b, hend, count, d + 1);
    }
}

pub proof fn lemma_items_end_bounds(b: Seq<u8>, pos: int, count: nat, d: int)
    requires
        items_end(b, pos, count, d) is Some,
        pos <= b.len(),
    ensures
        pos <= items_end(b, pos, count, d)->0 <= b.len(),
    decreases b.len() - pos, 1int, count,
{
    if count > 0 {
        let e = item_end(b, pos, d)->0;
        lemma_items_end_bounds(b, e, (count - 1) as nat, d);
    }
}

// ---------------------------------------------------------------------
// Import
// ---------------------------------------------------------------------

/// The progress of an import.
pub struct ImportState {
    /// No item has been accepted as the header yet.
    pub first: bool,
    /// The end marker was seen.
    pub ended: bool,
    /// The blob being assembled from parts: id, next part index, bytes.
    pub pending: Option<(Seq<u8>, int, Seq<u8>)>,
    /// Ids of the records delivered.
    pub seen_records: Seq<Seq<u8>>,
    /// Ids of the blobs delivered.
    pub seen_blobs: Seq<Seq<u8>>,
    /// The records delivered, in order.
    pub records: Seq<RecordModel>,
    /// The blobs delivered (id, content), in completion order.
    pub blobs: Seq<(Seq<u8>, Seq<u8>)>,
    /// The reports made of skipped or invalid items, in order.
    pub skipped: Seq<Report>,
}

/// The state before the first item.
pub open spec fn import_init() -> ImportState {
    ImportState {
        first: true,
        ended: false,
        pending: None,
        seen_records: Seq::empty(),
        seen_blobs: Seq::empty(),
        records: Seq::empty(),
        blobs: Seq::empty(),
        skipped: Seq::empty(),
    }
}

/// A report of a skipped or invalid item.
pub enum Report {
    /// A report with this text.
    Said(Seq<char>),
    /// An item that is no canonical CBOR: `undecodable item: ` and the
    /// decoder's error.
    Undecodable,
    /// A record item whose bytes are no record: `invalid record: ` and
    /// the parser's error.
    BadRecord,
}

/// Whether a report's text is what the report says.
pub open spec fn report_says(text: Seq<char>, r: Report) -> bool {
    match r {
        Report::Said(t) => text == t,
        Report::Undecodable => exists|e: Error| text == "undecodable item: "@ + error_text(e),
        Report::BadRecord => exists|e: Error| text == "invalid record: "@ + error_text(e),
    }
}

/// One more report.
pub open spec fn skip(st: ImportState, r: Report) -> ImportState {
    ImportState { skipped: st.skipped.push(r), ..st }
}

/// A report with fixed text.
pub open spec fn said(t: &str) -> Report {
    Report::Said(t@)
}

/// Delivers a blob unless one with its id was delivered before.
pub open spec fn deliver_blob(st: ImportState, id: Seq<u8>, content: Seq<u8>) -> ImportState {
    if st.seen_blobs.contains(id) {
        st
    } else {
        ImportState { seen_blobs: st.seen_blobs.push(id), blobs: st.blobs.push((id, content)), ..st }
    }
}

/// Completes the pending parted blob: delivered when its bytes hash to
/// its id, reported otherwise.
pub open spec fn flush(st: ImportState) -> ImportState {
    match st.pending {
        None => st,
        Some((id, _, content)) => {
            let cleared = ImportState { pending: None, ..st };
            if blake3_digest(content) == id {
                deliver_blob(cleared, id, content)
            } else {
                skip(cleared, Report::Said("parted blob "@ + spec_hex(id) + " failed hash verification"@))
            }
        },
    }
}

/// The model an item's bytes decode to.
pub open spec fn decode_item(b: Seq<u8>) -> Option<Model> {
    if exists|m: Model| decodable(m, 0) && enc(m) == b {
        Some(choose|m: Model| decodable(m, 0) && enc(m) == b)
    } else {
        None
    }
}

/// The tag of an item: its first element when that is text.
pub open spec fn tag_of(arr: Seq<Model>) -> Seq<char> {
    if arr.len() > 0 && arr[0] is Text {
        arr[0]->Text_0
    } else {
        Seq::empty()
    }
}

/// Element `i` of an item, when it is a byte string.
pub open spec fn arr_bytes(arr: Seq<Model>, i: int) -> Option<Seq<u8>> {
    if 0 <= i < arr.len() && arr[i] is Bytes {
        Some(arr[i]->Bytes_0)
    } else {
        None
    }
}

/// Element `i` of an item, when it is an unsigned integer.
pub open spec fn arr_uint(arr: Seq<Model>, i: int) -> Option<u64> {
    if 0 <= i < arr.len() && arr[i] is Uint {
        Some(arr[i]->Uint_0)
    } else {
        None
    }
}

/// A record item: delivered when it is a validly signed record not seen
/// before.
pub open spec fn on_record(st: ImportState, arr: Seq<Model>) -> ImportState {
    let f = flush(st);
    match arr_bytes(arr, 1) {
        None => skip(f, said("r item without bytes")),
        Some(b) => match record_of_bytes(b) {
            Some(r) => if sig_valid(r) {
                if f.seen_records.contains(spec_record_id(r)) {
                    f
                } else {
                    ImportState { seen_records: f.seen_records.push(spec_record_id(r)), records: f.records.push(r), ..f }
                }
            } else {
                skip(f, Report::Said("invalid record: "@ + error_text(verify_error(r))))
            },
            None => skip(f, Report::BadRecord),
        },
    }
}

/// A whole-blob item: delivered when its content hashes to its 32-byte
/// id and it was not delivered before.
pub open spec fn on_blob(st: ImportState, arr: Seq<Model>) -> ImportState {
    let f = flush(st);
    match (arr_bytes(arr, 1), arr_bytes(arr, 2)) {
        (Some(id), Some(c)) => if id.len() != 32 {
            skip(f, said("b item id not 32 bytes"))
        } else if blake3_digest(c) != id {
            skip(f, Report::Said("blob "@ + spec_hex(id) + " failed hash verification"@))
        } else {
            deliver_blob(f, id, c)
        },
        _ => skip(f, said("b item malformed")),
    }
}

/// Starts a parted blob with its first part; a part shorter than a
/// chunk completes it.
pub open spec fn begin_part(st: ImportState, id: Seq<u8>, part: Seq<u8>) -> ImportState {
    let st2 = ImportState { pending: Some((id, 1, part)), ..st };
    if part.len() < CHUNK_SIZE {
        flush(st2)
    } else {
        st2
    }
}

/// A blob-part item: appended to the pending blob when it continues it;
/// a part shorter than a chunk completes it. With no blob pending, a
/// first part (index 0) starts one. A part that does not continue the
/// pending blob is reported and dropped, and the pending blob completed.
pub open spec fn on_part(st: ImportState, arr: Seq<Model>) -> ImportState {
    match (arr_bytes(arr, 1), arr_uint(arr, 2), arr_bytes(arr, 3)) {
        (Some(id), Some(index), Some(part)) => if id.len() != 32 {
            skip(st, said("bp item id not 32 bytes"))
        } else {
            match st.pending {
                Some((cur, next, content)) => if cur == id && next == index {
                    let st2 = ImportState { pending: Some((cur, next + 1, content + part)), ..st };
                    if part.len() < CHUNK_SIZE {
                        flush(st2)
                    } else {
                        st2
                    }
                } else {
                    flush(skip(st, said("non-contiguous blob part; dropping pending blob")))
                },
                None => if index == 0 {
                    begin_part(st, id, part)
                } else {
                    skip(st, said("blob part does not start at index 0"))
                },
            }
        },
        _ => skip(st, said("bp item malformed")),
    }
}

/// The end marker: it ends the bundle only when well formed (both
/// counts present); reported when malformed or when its counts differ
/// from what was delivered.
pub open spec fn on_end(st: ImportState, arr: Seq<Model>) -> ImportState {
    let f = flush(st);
    match (arr_uint(arr, 1), arr_uint(arr, 2)) {
        (Some(rc), Some(bc)) => {
            let e = ImportState { ended: true, ..f };
            if rc != e.records.len() || bc != e.blobs.len() {
                skip(e, Report::Said(counts_text(rc, bc, e.records.len(), e.blobs.len())))
            } else {
                e
            }
        },
        _ => skip(f, said("end item malformed")),
    }
}

/// The report of an end marker whose counts differ from what was
/// delivered.
pub open spec fn counts_text(rc: u64, bc: u64, nr: nat, nb: nat) -> Seq<char> {
    "end counts mismatch: declared "@ + dec_digits(rc as nat) + " records/"@ + dec_digits(bc as nat)
        + " blobs, verified "@ + dec_digits(nr) + "/"@ + dec_digits(nb)
}

/// Dispatch on an item's tag.
pub open spec fn dispatch(st: ImportState, arr: Seq<Model>) -> ImportState {
    let tag = tag_of(arr);
    if tag == seq!['h', 'd', 'r'] {
        skip(st, said("duplicate hdr"))
    } else if tag == seq!['r'] {
        on_record(st, arr)
    } else if tag == seq!['b'] {
        on_blob(st, arr)
    } else if tag == seq!['b', 'p'] {
        on_part(st, arr)
    } else if tag == seq!['e', 'n', 'd'] {
        on_end(st, arr)
    } else {
        skip(st, Report::Said("unknown item tag "@ + str_debug_text(tag)))
    }
}

/// One item: ignored after the end marker; it must decode and be an
/// array; the first array item should be the header.
pub open spec fn step(st: ImportState, item: Seq<u8>) -> ImportState {
    if st.ended {
        skip(st, said("item after end marker"))
    } else {
        match decode_item(item) {
            Some(Model::Array(arr)) => if st.first {
                let st1 = ImportState { first: false, ..st };
                if tag_of(arr) == seq!['h', 'd', 'r'] {
                    st1
                } else {
                    dispatch(skip(st1, said("first item is not hdr")), arr)
                }
            } else {
                dispatch(st, arr)
            },
            Some(_) => skip(st, said("item is not an array")),
            None => skip(st, Report::Undecodable),
        }
    }
}

/// Every item from `pos` on; an item that cannot be read is reported and
/// ends the import.
pub open spec fn import_from(b: Seq<u8>, pos: int, st: ImportState) -> ImportState
    decreases b.len() - pos,
{
    match read_item_at(b, pos) {
        Some(None) => st,
        None => skip(st, said("unreadable item; stopping")),
        Some(Some(e)) => if pos < e <= b.len() {
            import_from(b, e, step(st, b.subrange(pos, e)))
        } else {
            st
        },
    }
}

/// The outcome of importing a bundle: an error for a missing or wrong
/// magic; otherwise the final state, the pending blob completed.
pub open spec fn import_spec(b: Seq<u8>) -> Result<ImportState, Error> {
    if b.len() < 5 {
        Err(Error::Bundle("missing magic"))
    } else if b.subrange(0, 5) != MAGIC@ {
        Err(Error::Bundle("bad magic or unsupported version"))
    } else {
        Ok(flush(import_from(b, 5, import_init())))
    }
}


/// The contents of a list of records.
pub open spec fn record_views(v: Seq<Record>) -> Seq<RecordModel> {
    v.map_values(|r: Record| r@)
}

/// The contents of a list of blobs.
pub open spec fn blob_views(v: Seq<(BlobId, Vec<u8>)>) -> Seq<(Seq<u8>, Seq<u8>)> {
    v.map_values(|b: (BlobId, Vec<u8>)| (b.0.0@, b.1@))
}

/// The ids of a list of 32-byte ids.
pub open spec fn id_views(v: Seq<[u8; 32]>) -> Seq<Seq<u8>> {
    v.map_values(|a: [u8; 32]| a@)
}

/// An import in progress.
struct Run {
    first: bool,
    ended: bool,
    pending: Option<([u8; 32], u64, Vec<u8>)>,
    seen_records: Vec<[u8; 32]>,
    seen_blobs: Vec<[u8; 32]>,
    records: Vec<Record>,
    blobs: Vec<(BlobId, Vec<u8>)>,
    skipped: Vec<String>,
    reports: Ghost<Seq<Report>>,
}

impl Run {
    /// The reports' texts are what the reports say.
    spec fn wf(&self) -> bool {
        &&& self.skipped@.len() == self.reports@.len()
        &&& forall|i: int| 0 <= i < self.reports@.len() ==> report_says(#[trigger] self.skipped@[i]@, self.reports@[i])
    }

    spec fn model(&self) -> ImportState {
        ImportState {
            first: self.first,
            ended: self.ended,
            pending: match self.pending {
                Some(p) => Some((p.0@, p.1 as int, p.2@)),
                None => None,
            },
            seen_records: id_views(self.seen_records@),
            seen_blobs: id_views(self.seen_blobs@),
            records: record_views(self.records@),
            blobs: blob_views(self.blobs@),
            skipped: self.reports@,
        }
    }

    spec fn next_part(&self) -> int {
        match self.pending {
            Some(p) => p.1 as int,
            None => 0,
        }
    }
}

fn contains_id(v: &Vec<[u8; 32]>, id: &[u8; 32]) -> (r: bool)
    ensures
        r == id_views(v@).contains(id@),
{
    let mut i: usize = 0;
    while i < v.len()
        invariant
            i <= v.len(),
            forall|k: int| 0 <= k < i ==> v@[k]@ != id@,
        decreases v.len() - i,
    {
        if bytes_eq(&v[i], id) {
            assert(id_views(v@)[i as int] == id@);
            return true;
        }
        i = i + 1;
    }
    proof {
        if id_views(v@).contains(id@) {
            let k = choose|k: int| 0 <= k < id_views(v@).len() && id_views(v@)[k] == id@;
            assert(id_views(v@)[k] == v@[k]@);
        }
    }
    false
}

fn report(run: &mut Run, msg: String, Ghost(r): Ghost<Report>)
    requires
        old(run).wf(),
        report_says(msg@, r),
    ensures
        final(run).wf(),
        final(run).model() == skip(old(run).model(), r),
        final(run).next_part() == old(run).next_part(),
{
    let ghost before = run.skipped@;
    run.skipped.push(msg);
    proof {
        run.reports@ = run.reports@.push(r);
        assert forall|i: int| 0 <= i < run.reports@.len() implies report_says(#[trigger] run.skipped@[i]@, run.reports@[i]) by {
            if i < before.len() {
                assert(run.skipped@[i] == before[i]);
            }
        }
    }
}

/// Delivers a verified blob unless already delivered.
fn run_deliver_blob(run: &mut Run, id: [u8; 32], content: Vec<u8>)
    requires
        old(run).wf(),
    ensures
        final(run).wf(),
        final(run).model() == deliver_blob(old(run).model(), id@, content@),
        final(run).next_part() == old(run).next_part(),
{
    if !contains_id(&run.seen_blobs, &id) {
        let ghost s0 = run.seen_blobs@;
        let ghost b0 = run.blobs@;
        run.seen_blobs.push(id);
        run.blobs.push((BlobId(id), content));
        proof {
            assert(id_views(run.seen_blobs@) =~= id_views(s0).push(id@));
            assert(blob_views(run.blobs@) =~= blob_views(b0).push((id@, content@)));
        }
    }
}

fn run_flush(run: &mut Run)
    requires
        old(run).wf(),
    ensures
        final(run).wf(),
        final(run).model() == flush(old(run).model()),
        final(run).pending is None,
{
    let pending = run.pending.take();
    match pending {
        None => {},
        Some((id, _, content)) => {
            let h = hash_blob(content.as_slice());
            if bytes_eq(&h.0, &id) {
                run_deliver_blob(run, id, content);
            } else {
                let hex = BlobId(id).to_hex();
                let m1 = concat("parted blob ", hex.as_str());
                let msg = concat(m1.as_str(), " failed hash verification");
                report(run, msg, Ghost(Report::Said("parted blob "@ + spec_hex(id@) + " failed hash verification"@)));
            }
        },
    }
}

proof fn lemma_decode_item(b: Seq<u8>, v: Model)
    requires
        decodable(v, 0),
        enc(v) == b,
        forall|m: Model| decodable(m, 0) && enc(m) == b ==> m == v,
    ensures
        decode_item(b) == Some(v),
{
}

fn tag_is(tag: &str, want: &str) -> (r: bool)
    ensures
        r == (tag@ == want@),
{
    crate::text::str_eq(tag, want)
}

/// Handles a record item.
fn run_record(run: &mut Run, arr: &[Value])
    requires
        old(run).wf(),
    ensures
        final(run).wf(),
        final(run).model() == on_record(old(run).model(), model_list(arr@)),
        final(run).next_part() <= old(run).next_part(),
{
    proof {
        lemma_model_list(arr@);
    }
    run_flush(run);
    let bytes = if arr.len() > 1 {
        arr[1].as_bytes()
    } else {
        None
    };
    let bytes = match bytes {
        Some(b) => b,
        None => {
            report(run, own("r item without bytes"), Ghost(said("r item without bytes")));
            return;
        },
    };
    let parsed = Record::from_cbor(bytes);
    match parsed {
        Ok(record) => {
            proof {
                lemma_record_of_bytes(bytes@, record@);
            }
            match record.verify() {
                Ok(()) => {
                    let id = record.id();
                    if !contains_id(&run.seen_records, &id.0) {
                        let ghost s0 = run.seen_records@;
                        let ghost r0 = run.records@;
                        run.seen_records.push(id.0);
                        run.records.push(record);
                        proof {
                            assert(id_views(run.seen_records@) =~= id_views(s0).push(id.0@));
                            assert(record_views(run.records@) =~= record_views(r0).push(record@));
                        }
                    }
                },
                Err(e) => {
                    let m = e.message();
                    report(run, concat("invalid record: ", m.as_str()), Ghost(Report::Said("invalid record: "@ + error_text(verify_error(record@)))));
                },
            }
        },
        Err(e) => {
            let m = e.message();
            proof {
                assert(m@ == error_text(e));
            }
            report(run, concat("invalid record: ", m.as_str()), Ghost(Report::BadRecord));
        },
    }
}

/// Handles a whole-blob item.
fn run_blob(run: &mut Run, arr: &[Value])
    requires
        old(run).wf(),
    ensures
        final(run).wf(),
        final(run).model() == on_blob(old(run).model(), model_list(arr@)),
        final(run).next_part() <= old(run).next_part(),
{
    proof {
        lemma_model_list(arr@);
    }
    run_flush(run);
    let id = if arr.len() > 1 {
        arr[1].as_bytes()
    } else {
        None
    };
    let content = if arr.len() > 2 {
        arr[2].as_bytes()
    } else {
        None
    };
    let (id, content) = match (id, content) {
        (Some(i), Some(c)) => (i, c),
        _ => {
            report(run, own("b item malformed"), Ghost(said("b item malformed")));
            return;
        },
    };
    if id.len() != 32 {
        report(run, own("b item id not 32 bytes"), Ghost(said("b item id not 32 bytes")));
        return;
    }
    let id = crate::record::array32(id);
    let h = hash_blob(content);
    if !bytes_eq(&h.0, &id) {
        let hex = BlobId(id).to_hex();
        let m1 = concat("blob ", hex.as_str());
        report(run, concat(m1.as_str(), " failed hash verification"), Ghost(Report::Said("blob "@ + spec_hex(id@) + " failed hash verification"@)));
    } else {
        run_deliver_blob(run, id, bytes_to_vec(content));
    }
}

/// Handles a blob-part item.
fn run_part(run: &mut Run, arr: &[Value])
    requires
        old(run).wf(),
        old(run).next_part() < u64::MAX,
    ensures
        final(run).wf(),
        final(run).model() == on_part(old(run).model(), model_list(arr@)),
        final(run).next_part() <= old(run).next_part() + 1,
{
    proof {
        lemma_model_list(arr@);
    }
    let id = if arr.len() > 1 {
        arr[1].as_bytes()
    } else {
        None
    };
    let index = if arr.len() > 2 {
        arr[2].as_u64()
    } else {
        None
    };
    let part = if arr.len() > 3 {
        arr[3].as_bytes()
    } else {
        None
    };
    let (id, index, part) = match (id, index, part) {
        (Some(i), Some(x), Some(p)) => (i, x, p),
        _ => {
            report(run, own("bp item malformed"), Ghost(said("bp item malformed")));
            return;
        },
    };
    if id.len() != 32 {
        report(run, own("bp item id not 32 bytes"), Ghost(said("bp item id not 32 bytes")));
        return;
    }
    let id = crate::record::array32(id);
    let ghost st = run.model();
    let pending = run.pending.take();
    match pending {
        Some((cur, next, content)) => {
            if bytes_eq(&cur, &id) && next == index {
                let mut content = content;
                extend_bytes(&mut content, part);
                run.pending = Some((cur, next + 1, content));
                proof {
                    assert(run.model() == ImportState {
                        pending: Some((cur@, next + 1, (st.pending->0).2 + part@)),
                        ..st
                    });
                }
                if part.len() < CHUNK_SIZE {
                    run_flush(run);
                }
            } else {
                run.pending = Some((cur, next, content));
                report(run, own("non-contiguous blob part; dropping pending blob"), Ghost(said("non-contiguous blob part; dropping pending blob")));
                run_flush(run);
            }
        },
        None => {
            if index == 0 {
                run.pending = Some((id, 1, bytes_to_vec(part)));
                if part.len() < CHUNK_SIZE {
                    run_flush(run);
                }
            } else {
                report(run, own("blob part does not start at index 0"), Ghost(said("blob part does not start at index 0")));
            }
        },
    }
}

/// Handles the end marker.
fn run_end(run: &mut Run, arr: &[Value])
    requires
        old(run).wf(),
    ensures
        final(run).wf(),
        final(run).model() == on_end(old(run).model(), model_list(arr@)),
        final(run).next_part() <= old(run).next_part(),
{
    proof {
        lemma_model_list(arr@);
    }
    run_flush(run);
    let rc = if arr.len() > 1 {
        arr[1].as_u64()
    } else {
        None
    };
    let bc = if arr.len() > 2 {
        arr[2].as_u64()
    } else {
        None
    };
    let (rc, bc) = match (rc, bc) {
        (Some(r), Some(b)) => (r, b),
        _ => {
            report(run, own("end item malformed"), Ghost(said("end item malformed")));
            return;
        },
    };
    run.ended = true;
    if rc as usize != run.records.len() || bc as usize != run.blobs.len() || rc > usize::MAX as u64 || bc
        > usize::MAX as u64 {
        let d1 = chars_to_string(&decimal(rc as u128), 0);
        let d2 = chars_to_string(&decimal(bc as u128), 0);
        let d3 = chars_to_string(&decimal(run.records.len() as u128), 0);
        let d4 = chars_to_string(&decimal(run.blobs.len() as u128), 0);
        let m = concat("end counts mismatch: declared ", d1.as_str());
        let m = concat(m.as_str(), " records/");
        let m = concat(m.as_str(), d2.as_str());
        let m = concat(m.as_str(), " blobs, verified ");
        let m = concat(m.as_str(), d3.as_str());
        let m = concat(m.as_str(), "/");
        let m = concat(m.as_str(), d4.as_str());
        proof {
            assert(d1@ =~= dec_digits(rc as nat));
            assert(d2@ =~= dec_digits(bc as nat));
            assert(d3@ =~= dec_digits(run.records@.len()));
            assert(d4@ =~= dec_digits(run.blobs@.len()));
        }
        report(run, m, Ghost(Report::Said(counts_text(rc, bc, record_views(run.records@).len(), blob_views(run.blobs@).len()))));
    }
}


/// Handles one item's bytes (see [`step`]).
fn run_step(run: &mut Run, item: &[u8])
    requires
        old(run).wf(),
        old(run).next_part() < u64::MAX,
    ensures
        final(run).wf(),
        final(run).model() == step(old(run).model(), item@),
        final(run).next_part() <= old(run).next_part() + 1,
{
    if run.ended {
        report(run, own("item after end marker"), Ghost(said("item after end marker")));
        return;
    }
    let value = match decode_canonical(item) {
        Ok(v) => v,
        Err(e) => {
            proof {
                assert(decode_item(item@) is None);
            }
            let m = e.message();
            proof {
                assert(m@ == error_text(e));
            }
            report(run, concat("undecodable item: ", m.as_str()), Ghost(Report::Undecodable));
            return;
        },
    };
    proof {
        lemma_decode_item(item@, value@);
    }
    let arr = match value.as_array() {
        Some(a) => a,
        None => {
            report(run, own("item is not an array"), Ghost(said("item is not an array")));
            return;
        },
    };
    proof {
        lemma_model_list(arr@);
        reveal_strlit("hdr");
        reveal_strlit("r");
        reveal_strlit("b");
        reveal_strlit("bp");
        reveal_strlit("end");
        assert("hdr"@ =~= seq!['h', 'd', 'r']);
        assert("r"@ =~= seq!['r']);
        assert("b"@ =~= seq!['b']);
        assert("bp"@ =~= seq!['b', 'p']);
        assert("end"@ =~= seq!['e', 'n', 'd']);
    }
    let tag: &str = if arr.len() > 0 {
        match arr[0].as_text() {
            Some(t) => t,
            None => "",
        }
    } else {
        ""
    };
    proof {
        reveal_strlit("");
        assert(tag@ == tag_of(model_list(arr@)));
    }
    if run.first {
        run.first = false;
        if tag_is(tag, "hdr") {
            return;
        }
        report(run, own("first item is not hdr"), Ghost(said("first item is not hdr")));
    }
    if tag_is(tag, "hdr") {
        report(run, own("duplicate hdr"), Ghost(said("duplicate hdr")));
    } else if tag_is(tag, "r") {
        run_record(run, arr);
    } else if tag_is(tag, "b") {
        run_blob(run, arr);
    } else if tag_is(tag, "bp") {
        run_part(run, arr);
    } else if tag_is(tag, "end") {
        run_end(run, arr);
    } else {
        let t = str_debug(tag);
        report(run, concat("unknown item tag ", t.as_str()), Ghost(Report::Said("unknown item tag "@ + str_debug_text(tag@))));
    }
}

/// Whether the bundle starts with the magic.
fn has_magic(bytes: &[u8]) -> (r: bool)
    requires
        bytes@.len() >= 5,
    ensures
        r == (bytes@.subrange(0, 5) == MAGIC@),
{
    let mut i: usize = 0;
    while i < 5
        invariant
            i <= 5,
            5 <= bytes@.len(),
            forall|k: int| 0 <= k < i ==> bytes@[k] == MAGIC@[k],
        decreases 5 - i,
    {
        if bytes[i] != MAGIC[i] {
            assert(bytes@.subrange(0, 5)[i as int] != MAGIC@[i as int]);
            return false;
        }
        i = i + 1;
    }
    assert(bytes@.subrange(0, 5) =~= MAGIC@);
    true
}

fn new_run() -> (run: Run)
    ensures
        run.model() == import_init(),
        run.next_part() == 0,
        run.wf(),
{
    let run = Run {
        first: true,
        ended: false,
        pending: None,
        seen_records: Vec::new(),
        seen_blobs: Vec::new(),
        records: Vec::new(),
        blobs: Vec::new(),
        skipped: Vec::new(),
        reports: Ghost(Seq::empty()),
    };
    proof {
        assert(id_views(run.seen_records@) =~= Seq::<Seq<u8>>::empty());
        assert(id_views(run.seen_blobs@) =~= Seq::<Seq<u8>>::empty());
        assert(record_views(run.records@) =~= Seq::<RecordModel>::empty());
        assert(blob_views(run.blobs@) =~= Seq::<(Seq<u8>, Seq<u8>)>::empty());
    }
    run
}

/// Runs every item after the magic.
fn run_items(bytes: &[u8]) -> (run: Run)
    requires
        bytes@.len() >= 5,
    ensures
        run.model() == import_from(bytes@, 5, import_init()),
        run.wf(),
{
    let mut run = new_run();
    let mut pos: usize = 5;
    loop
        invariant_except_break
            import_from(bytes@, 5, import_init()) == import_from(bytes@, pos as int, run.model()),
        invariant
            5 <= pos <= bytes@.len(),
            run.next_part() <= pos,
            run.wf(),
        ensures
            import_from(bytes@, 5, import_init()) == run.model(),
        decreases bytes@.len() - pos,
    {
        match read_item(bytes, pos) {
            Ok(None) => {
                break;
            },
            Err(_) => {
                report(&mut run, own("unreadable item; stopping"), Ghost(said("unreadable item; stopping")));
                break;
            },
            Ok(Some((item, e))) => {
                run_step(&mut run, item.as_slice());
                pos = e;
            },
        }
    }
    run
}

/// Appends reports to a list.
fn append_reports(skipped: &mut Vec<String>, more: &Vec<String>)
    ensures
        final(skipped)@ == old(skipped)@ + more@,
{
    let ghost before = skipped@;
    let mut k: usize = 0;
    while k < more.len()
        invariant
            k <= more.len(),
            skipped@ == before + more@.subrange(0, k as int),
        decreases more.len() - k,
    {
        skipped.push(more[k].clone());
        assert(more@.subrange(0, k + 1) =~= more@.subrange(0, k as int).push(more@[k as int]));
        k = k + 1;
    }
    assert(more@.subrange(0, more.len() as int) =~= more@);
}

/// Whether `after` is `before` followed by one text per report, each
/// what its report says.
pub open spec fn reported(before: Seq<String>, after: Seq<String>, rs: Seq<Report>) -> bool {
    &&& after.len() == before.len() + rs.len()
    &&& after.subrange(0, before.len() as int) == before
    &&& forall|i: int| 0 <= i < rs.len() ==> report_says(#[trigger] after[before.len() + i]@, rs[i])
}

/// Streaming import core: every item in order, each verified record and
/// blob delivered as it completes. Returns the records and blobs, in
/// delivery order, and whether the bundle was truncated (no end
/// marker); reports for skipped items are appended to `skipped`. Only a
/// missing or wrong magic is an error: invalid items are reported and
/// skipped (see [`import_spec`]).
pub fn import_streaming(
    bytes: &[u8],
    skipped: &mut Vec<String>,
) -> (res: Result<(Vec<Record>, Vec<(BlobId, Vec<u8>)>, bool), Error>)
    ensures
        match import_spec(bytes@) {
            Err(e) => res == Err::<(Vec<Record>, Vec<(BlobId, Vec<u8>)>, bool), Error>(e) && final(skipped)@ == old(skipped)@,
            Ok(st) => res matches Ok((rs, bs, truncated)) && record_views(rs@) == st.records && blob_views(bs@) == st.blobs
                && truncated == !st.ended && reported(old(skipped)@, final(skipped)@, st.skipped),
        },
{
    if bytes.len() < 5 {
        return Err(Error::Bundle("missing magic"));
    }
    if !has_magic(bytes) {
        return Err(Error::Bundle("bad magic or unsupported version"));
    }
    let mut run = run_items(bytes);
    run_flush(&mut run);
    let ghost before = old(skipped)@;
    append_reports(skipped, &run.skipped);
    proof {
        let rs = run.reports@;
        assert(skipped@.subrange(0, before.len() as int) =~= before);
        assert forall|i: int| 0 <= i < rs.len() implies report_says(#[trigger] skipped@[before.len() + i]@, rs[i]) by {
            assert(skipped@[before.len() + i] == run.skipped@[i]);
        }
    }
    Ok((run.records, run.blobs, !run.ended))
}

/// An import fed one item at a time, so that memory holds one item
/// (and the blob being assembled), not the whole bundle. Feed it the
/// bytes after the magic cut by [`item_len`]; its state follows
/// [`step`] item by item.
pub struct Importer {
    run: Run,
    fed: u64,
}

impl Importer {
    /// The state of the import.
    pub closed spec fn state(&self) -> ImportState {
        self.run.model()
    }

    /// The number of items fed so far.
    pub closed spec fn items_fed(&self) -> u64 {
        self.fed
    }

    pub closed spec fn wf(&self) -> bool {
        self.run.wf() && self.run.next_part() <= self.fed
    }

    /// Start an import: `Err` for a missing or wrong magic, as
    /// [`import_spec`] says.
    pub fn begin(magic: &[u8]) -> (res: Result<Importer, Error>)
        ensures
            magic@.len() < 5 ==> res == Err::<Importer, Error>(Error::Bundle("missing magic")),
            magic@.len() >= 5 && magic@.subrange(0, 5) != MAGIC@ ==> res == Err::<Importer, Error>(
                Error::Bundle("bad magic or unsupported version"),
            ),
            magic@.len() >= 5 && magic@.subrange(0, 5) == MAGIC@ ==> (res matches Ok(imp) && imp.wf() && imp.state()
                == import_init() && imp.items_fed() == 0),
    {
        if magic.len() < 5 {
            return Err(Error::Bundle("missing magic"));
        }
        if !has_magic(magic) {
            return Err(Error::Bundle("bad magic or unsupported version"));
        }
        Ok(Importer { run: new_run(), fed: 0 })
    }

    /// The number of items fed so far.
    pub fn fed(&self) -> (n: u64)
        ensures
            n == self.items_fed(),
    {
        self.fed
    }

    /// Take one item's bytes.
    pub fn item(&mut self, item: &[u8])
        requires
            old(self).wf(),
            old(self).items_fed() < u64::MAX,
        ensures
            final(self).wf(),
            final(self).state() == step(old(self).state(), item@),
            final(self).items_fed() == old(self).items_fed() + 1,
    {
        run_step(&mut self.run, item);
        self.fed = self.fed + 1;
    }

    /// A bundle whose next item could not be read: reported, and the
    /// import ends.
    pub fn unreadable(&mut self)
        requires
            old(self).wf(),
        ensures
            final(self).wf(),
            final(self).state() == skip(old(self).state(), said("unreadable item; stopping")),
            final(self).items_fed() == old(self).items_fed(),
    {
        report(&mut self.run, own("unreadable item; stopping"), Ghost(said("unreadable item; stopping")));
    }

    /// Finish: the pending blob completed; the records, the blobs, the
    /// reports and whether the bundle was truncated.
    pub fn finish(self) -> (r: ImportResult)
        requires
            self.wf(),
        ensures
            record_views(r.records@) == flush(self.state()).records,
            blob_views(r.blobs@) == flush(self.state()).blobs,
            r.truncated == !flush(self.state()).ended,
            reported(Seq::empty(), r.skipped@, flush(self.state()).skipped),
    {
        let mut run = self.run;
        run_flush(&mut run);
        let mut skipped: Vec<String> = Vec::new();
        append_reports(&mut skipped, &run.skipped);
        proof {
            let rs = run.reports@;
            assert(skipped@.subrange(0, 0) =~= Seq::<String>::empty());
            assert forall|i: int| 0 <= i < rs.len() implies report_says(#[trigger] skipped@[0 + i]@, rs[i]) by {
                assert(skipped@[0 + i] == run.skipped@[i]);
            }
        }
        ImportResult { records: run.records, blobs: run.blobs, skipped, truncated: !run.ended }
    }
}

/// The length of the complete item at the start of `buf`, when there
/// is one there (see [`item_end`]); `None` when the item is incomplete
/// or not allowed.
pub fn item_len(buf: &[u8]) -> (r: Option<usize>)
    ensures
        match item_end(buf@, 0, 0) {
            Some(e) => r == Some(e as usize) && 0 < e <= buf@.len(),
            None => r is None,
        },
{
    if buf.len() == 0 {
        return None;
    }
    proof {
        if item_end(buf@, 0, 0) is Some {
            lemma_item_end_bounds(buf@, 0, 0);
        }
    }
    match item_end_at(buf, 0, 0) {
        Ok(e) => Some(e),
        Err(_) => None,
    }
}

/// Everything an importer accepted, plus a salvage report.
#[derive(Debug)]
pub struct ImportResult {
    /// Valid, signed records, deduplicated by id, in bundle order.
    pub records: Vec<Record>,
    /// Hash-verified blobs, deduplicated, in completion order.
    pub blobs: Vec<(BlobId, Vec<u8>)>,
    /// Reports for every skipped or invalid item.
    pub skipped: Vec<String>,
    /// True if the bundle ended without a well-formed end marker.
    pub truncated: bool,
}

/// Export and import operations.
pub struct Bundle;

impl Bundle {
    /// Write a bundle of the given records and blobs (see
    /// [`export_spec`]): the magic, the header, every record, every
    /// distinct blob (re-hashed first: a blob that does not match its id
    /// stops the export with an error, after what was already written),
    /// and the end marker with the record count and the distinct blob
    /// count. Blobs larger than the split threshold are written as
    /// chunk-sized parts.
    pub fn export(records: &[Record], blobs: &[(BlobId, Vec<u8>)], out: &mut Vec<u8>) -> (res: Result<(), Error>)
        ensures
            final(out)@ == old(out)@ + export_spec(record_views(records@), blob_views(blobs@)).0,
            res is Ok <==> export_spec(record_views(records@), blob_views(blobs@)).1,
            res matches Err(e) ==> e == Error::Bundle("exporter blob does not match its id"),
    {
        let ghost rs = record_views(records@);
        let ghost bs = blob_views(blobs@);
        proof {
            reveal_strlit("hdr");
            reveal_strlit("r");
            reveal_strlit("end");
            assert("hdr"@ =~= seq!['h', 'd', 'r']);
            assert("r"@ =~= seq!['r']);
            assert("end"@ =~= seq!['e', 'n', 'd']);
        }
        extend_bytes(out, &MAGIC);
        let hv = item(text_value("hdr"), Value::Dict(Vec::new()), None, None);
        proof {
            assert(model_entries(Seq::<(Value, Value)>::empty()) =~= Seq::<(Model, Model)>::empty());
            assert(hv@->Array_0 =~= hdr_item()->Array_0);
        }
        write_item(out, &hv);
        let ghost base = old(out)@ + MAGIC@ + enc(hdr_item());
        proof {
            assert(out@ =~= base + records_bytes(rs.subrange(0, 0)));
        }
        let mut i: usize = 0;
        while i < records.len()
            invariant
                i <= records.len(),
                rs == record_views(records@),
                "r"@ == seq!['r'],
                out@ == base + records_bytes(rs.subrange(0, i as int)),
            decreases records.len() - i,
        {
            let b = records[i].to_canonical_cbor();
            let rv = item(text_value("r"), Value::Bytes(b), None, None);
            proof {
                lemma_records_bytes_step(rs, i as int);
                assert(rs[i as int] == records@[i as int]@);
                assert(rv@->Array_0 =~= item_model(seq!['r'], seq![Model::Bytes(enc(envelope(rs[i as int], true)))])->Array_0);
            }
            write_item(out, &rv);
            i = i + 1;
        }
        assert(rs.subrange(0, records.len() as int) =~= rs);
        let ghost head = out@;
        assert(head =~= old(out)@ + MAGIC@ + enc(hdr_item()) + records_bytes(rs));
        let mut seen: Vec<[u8; 32]> = Vec::new();
        let mut j: usize = 0;
        proof {
            assert(bs.skip(0) =~= bs);
            assert(id_views(seen@) =~= Seq::<Seq<u8>>::empty());
        }
        while j < blobs.len()
            invariant
                j <= blobs.len(),
                bs == blob_views(blobs@),
                export_blobs(bs, Seq::empty()) == ({
                    let r = export_blobs(bs.skip(j as int), id_views(seen@));
                    (out@.skip(head.len() as int) + r.0, r.1, r.2)
                }),
                head.len() <= out@.len(),
                out@.subrange(0, head.len() as int) == head,
                head == old(out)@ + MAGIC@ + enc(hdr_item()) + records_bytes(rs),
                rs == record_views(records@),
            decreases blobs.len() - j,
        {
            let ghost rest = bs.skip(j as int);
            proof {
                assert(rest.drop_first() =~= bs.skip(j + 1));
                assert(rest[0] == bs[j as int]);
            }
            let id = blobs[j].0.0;
            let content = &blobs[j].1;
            let h = hash_blob(content.as_slice());
            if !bytes_eq(&h.0, &id) {
                proof {
                    assert(rest[0] == (id@, content@));
                    assert(export_blobs(rest, id_views(seen@)) == (Seq::<u8>::empty(), id_views(seen@), false));
                    assert(out@ =~= head + out@.skip(head.len() as int));
                    assert(out@ =~= old(out)@ + export_spec(rs, bs).0);
                }
                return Err(Error::Bundle("exporter blob does not match its id"));
            }
            if !contains_id(&seen, &id) {
                let ghost before = out@;
                write_blob(out, &id, content);
                let ghost s0 = seen@;
                seen.push(id);
                proof {
                    assert(id_views(seen@) =~= id_views(s0).push(id@));
                    assert(out@.skip(head.len() as int) =~= before.skip(head.len() as int) + blob_items_bytes(id@, content@));
                    assert(out@.subrange(0, head.len() as int) =~= before.subrange(0, head.len() as int));
                }
            }
            j = j + 1;
        }
        proof {
            assert(bs.skip(blobs.len() as int) =~= Seq::<(Seq<u8>, Seq<u8>)>::empty());
            assert(out@ =~= head + out@.skip(head.len() as int));
            reveal_strlit("end");
            assert("end"@ =~= seq!['e', 'n', 'd']);
        }
        let ev = item(text_value("end"), Value::Uint(records.len() as u64), Some(Value::Uint(seen.len() as u64)), None);
        proof {
            assert(ev@->Array_0 =~= item_model(
                seq!['e', 'n', 'd'],
                seq![Model::Uint(rs.len() as u64), Model::Uint(id_views(seen@).len() as u64)],
            )->Array_0);
        }
        write_item(out, &ev);
        Ok(())
    }

    /// Read and verify a bundle (see [`import_streaming`]).
    pub fn import(bytes: &[u8]) -> (res: Result<ImportResult, Error>)
        ensures
            match import_spec(bytes@) {
                Err(e) => res == Err::<ImportResult, Error>(e),
                Ok(st) => res matches Ok(r) && record_views(r.records@) == st.records && blob_views(r.blobs@) == st.blobs
                    && r.truncated == !st.ended && reported(Seq::empty(), r.skipped@, st.skipped),
            },
    {
        let mut skipped: Vec<String> = Vec::new();
        match import_streaming(bytes, &mut skipped) {
            Ok((records, blobs, truncated)) => Ok(ImportResult { records, blobs, skipped, truncated }),
            Err(e) => Err(e),
        }
    }
}


// ---------------------------------------------------------------------
// Export
// ---------------------------------------------------------------------

/// A bundle item: a tag and up to three more elements.
pub open spec fn item_model(tag: Seq<char>, rest: Seq<Model>) -> Model {
    Model::Array(seq![Model::Text(tag)] + rest)
}

/// `["hdr", {}]`.
pub open spec fn hdr_item() -> Model {
    item_model(seq!['h', 'd', 'r'], seq![Model::Dict(Seq::empty())])
}

/// The items of the records, each `["r", wire bytes]`.
pub open spec fn records_bytes(rs: Seq<RecordModel>) -> Seq<u8>
    decreases rs.len(),
{
    if rs.len() == 0 {
        Seq::empty()
    } else {
        records_bytes(rs.drop_last()) + enc(item_model(seq!['r'], seq![Model::Bytes(enc(envelope(rs.last(), true)))]))
    }
}

/// The parts of a large blob from part `i` on, each
/// `["bp", id, index, chunk]`.
pub open spec fn parts_bytes(id: Seq<u8>, c: Seq<u8>, i: int) -> Seq<u8>
    decreases chunk_count(c.len() as int) - i,
{
    if i < 0 || i >= chunk_count(c.len() as int) {
        Seq::empty()
    } else {
        enc(item_model(seq!['b', 'p'], seq![Model::Bytes(id), Model::Uint(i as u64), Model::Bytes(chunk_of(c, i))]))
            + parts_bytes(id, c, i + 1)
    }
}

/// The items of one blob: `["b", id, content]`, or its parts when it is
/// larger than the split threshold.
pub open spec fn blob_items_bytes(id: Seq<u8>, c: Seq<u8>) -> Seq<u8> {
    if c.len() > PART_SPLIT_THRESHOLD {
        parts_bytes(id, c, 0)
    } else {
        enc(item_model(seq!['b'], seq![Model::Bytes(id), Model::Bytes(c)]))
    }
}

/// The items of the blobs not yet written (ids in `seen` are skipped):
/// the bytes, the ids written by the end, and whether every blob
/// matched its id (the bytes stop at the first that does not).
pub open spec fn export_blobs(bs: Seq<(Seq<u8>, Seq<u8>)>, seen: Seq<Seq<u8>>) -> (Seq<u8>, Seq<Seq<u8>>, bool)
    decreases bs.len(),
{
    if bs.len() == 0 {
        (Seq::empty(), seen, true)
    } else {
        let (id, c) = bs[0];
        if blake3_digest(c) != id {
            (Seq::empty(), seen, false)
        } else if seen.contains(id) {
            export_blobs(bs.drop_first(), seen)
        } else {
            let r = export_blobs(bs.drop_first(), seen.push(id));
            (blob_items_bytes(id, c) + r.0, r.1, r.2)
        }
    }
}

/// The bytes an export writes, and whether it succeeds.
pub open spec fn export_spec(rs: Seq<RecordModel>, bs: Seq<(Seq<u8>, Seq<u8>)>) -> (Seq<u8>, bool) {
    let head = MAGIC@ + enc(hdr_item()) + records_bytes(rs);
    let (bb, seen, ok) = export_blobs(bs, Seq::empty());
    if ok {
        (
            head + bb + enc(item_model(seq!['e', 'n', 'd'], seq![Model::Uint(rs.len() as u64), Model::Uint(seen.len() as u64)])),
            true,
        )
    } else {
        (head + bb, false)
    }
}

proof fn lemma_records_bytes_step(rs: Seq<RecordModel>, i: int)
    requires
        0 <= i < rs.len(),
    ensures
        records_bytes(rs.subrange(0, i + 1)) == records_bytes(rs.subrange(0, i)) + enc(
            item_model(seq!['r'], seq![Model::Bytes(enc(envelope(rs[i], true)))]),
        ),
{
    assert(rs.subrange(0, i + 1).drop_last() =~= rs.subrange(0, i));
}

/// Whether an item element is already canonical: no array, and a map
/// only when empty.
pub open spec fn flat(m: Model) -> bool {
    !(m is Array) && (m is Dict ==> m->Dict_0.len() == 0)
}

proof fn lemma_flat_prefix(items: Seq<Model>, k: int)
    requires
        0 <= k <= items.len(),
        forall|i: int| 0 <= i < items.len() ==> flat(#[trigger] items[i]),
    ensures
        canon_ok_list(items.subrange(0, k)),
        canon_list(items.subrange(0, k)) == items.subrange(0, k),
    decreases k,
{
    if k > 0 {
        lemma_flat_prefix(items, k - 1);
        let p = items.subrange(0, k);
        assert(p.drop_last() =~= items.subrange(0, k - 1));
        let x = items[k - 1];
        assert(flat(x));
        assert(canon(x) == x && canon_ok(x)) by {
            match x {
                Model::Dict(es) => {
                    assert(es.len() == 0);
                    assert(canon_keyed(es) =~= Seq::empty());
                    assert(sort_by_key(canon_keyed(es)) =~= Seq::empty());
                    assert(payloads(sort_by_key(canon_keyed(es))) =~= es);
                },
                _ => {},
            }
        }
        assert(canon_list(p) =~= p);
    }
}

/// Encodes an item that is already canonical.
fn write_item(out: &mut Vec<u8>, item: &Value)
    requires
        item@ matches Model::Array(items) && forall|i: int| 0 <= i < items.len() ==> flat(#[trigger] items[i]),
    ensures
        final(out)@ == old(out)@ + enc(item@),
{
    let ghost items = item@->Array_0;
    proof {
        lemma_flat_prefix(items, items.len() as int);
        assert(items.subrange(0, items.len() as int) =~= items);
    }
    match encode_canonical(item) {
        Ok(b) => {
            extend_bytes(out, b.as_slice());
        },
        Err(_) => {},
    }
}

/// An item value: a tag and up to three more elements.
fn item(tag: Value, a: Value, b: Option<Value>, c: Option<Value>) -> (v: Value)
    ensures
        v@ == Model::Array(
            seq![tag@, a@] + (match b {
                Some(x) => seq![x@],
                None => Seq::empty(),
            }) + (match c {
                Some(x) => seq![x@],
                None => Seq::empty(),
            }),
        ),
{
    let mut items = vec![tag, a];
    match b {
        Some(x) => items.push(x),
        None => {},
    }
    match c {
        Some(x) => items.push(x),
        None => {},
    }
    proof {
        lemma_model_list(items@);
    }
    let v = Value::Array(items);
    proof {
        assert(model_list(items@) =~= seq![items@[0]@, items@[1]@] + (match b {
            Some(x) => seq![x@],
            None => Seq::<Model>::empty(),
        }) + (match c {
            Some(x) => seq![x@],
            None => Seq::<Model>::empty(),
        }));
    }
    v
}

pub(crate) proof fn lemma_chunk_count(len: int)
    requires
        len >= 0,
    ensures
        chunk_count(len) == len / (CHUNK_SIZE as int) + if len % (CHUNK_SIZE as int) != 0 {
            1int
        } else {
            0int
        },
{
    let c = CHUNK_SIZE as int;
    assert((len + c - 1) / c == len / c + if len % c != 0 {
        1int
    } else {
        0int
    }) by (nonlinear_arith)
        requires
            c == 1048576,
            len >= 0,
    ;
}

pub(crate) proof fn lemma_chunk_start(len: int, i: int)
    requires
        0 <= i < chunk_count(len),
        len >= 0,
    ensures
        i * CHUNK_SIZE < len,
{
    let c = CHUNK_SIZE as int;
    assert(i * c < len) by (nonlinear_arith)
        requires
            c == 1048576,
            0 <= i < (len + c - 1) / c,
            len >= 0,
    ;
}

/// Writes the items of one blob (see [`blob_items_bytes`]).
fn write_blob(out: &mut Vec<u8>, id: &[u8; 32], content: &Vec<u8>)
    ensures
        final(out)@ == old(out)@ + blob_items_bytes(id@, content@),
{
    proof {
        reveal_strlit("b");
        reveal_strlit("bp");
        assert("b"@ =~= seq!['b']);
        assert("bp"@ =~= seq!['b', 'p']);
    }
    if content.len() > PART_SPLIT_THRESHOLD {
        let ghost start = out@;
        let n = content.len() / CHUNK_SIZE + if content.len() % CHUNK_SIZE != 0 {
            1
        } else {
            0
        };
        proof {
            lemma_chunk_count(content@.len() as int);
        }
        let mut index: usize = 0;
        while index < n
            invariant
                n == chunk_count(content@.len() as int),
                index <= n,
                "bp"@ == seq!['b', 'p'],
                out@ + parts_bytes(id@, content@, index as int) == start + parts_bytes(id@, content@, 0),
            decreases n - index,
        {
            proof {
                lemma_chunk_start(content@.len() as int, index as int);
                assert(index * CHUNK_SIZE < content.len());
            }
            let lo = index * CHUNK_SIZE;
            let hi = if content.len() - lo > CHUNK_SIZE {
                lo + CHUNK_SIZE
            } else {
                content.len()
            };
            let mut part: Vec<u8> = Vec::new();
            let mut k = lo;
            while k < hi
                invariant
                    lo <= k <= hi <= content.len(),
                    part@ == content@.subrange(lo as int, k as int),
                decreases hi - k,
            {
                part.push(content[k]);
                assert(part@ =~= content@.subrange(lo as int, k + 1));
                k = k + 1;
            }
            let ghost before = out@;
            let pv = item(text_value("bp"), Value::Bytes(bytes_to_vec(id)), Some(Value::Uint(index as u64)), Some(Value::Bytes(part)));
            proof {
                assert(part@ == chunk_of(content@, index as int));
                assert(pv@->Array_0 =~= item_model(
                    seq!['b', 'p'],
                    seq![Model::Bytes(id@), Model::Uint(index as u64), Model::Bytes(chunk_of(content@, index as int))],
                )->Array_0);
            }
            write_item(out, &pv);
            proof {
                assert(before + parts_bytes(id@, content@, index as int) == before + (enc(item_model(seq!['b', 'p'], seq![Model::Bytes(id@), Model::Uint(index as u64), Model::Bytes(chunk_of(content@, index as int))])) + parts_bytes(id@, content@, index + 1)));
                assert(out@ + parts_bytes(id@, content@, index + 1) =~= before + parts_bytes(id@, content@, index as int));
            }
            index = index + 1;
        }
        proof {
            assert(parts_bytes(id@, content@, n as int) =~= Seq::<u8>::empty());
            assert(out@ =~= out@ + parts_bytes(id@, content@, n as int));
        }
    } else {
        let bv = item(text_value("b"), Value::Bytes(bytes_to_vec(id)), Some(Value::Bytes(content.clone())), None);
        proof {
            assert(bv@->Array_0 =~= item_model(seq!['b'], seq![Model::Bytes(id@), Model::Bytes(content@)])->Array_0);
        }
        write_item(out, &bv);
    }
}

} // verus!
