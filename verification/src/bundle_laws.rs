//! A bundle reads back as written: importing what `Bundle::export`
//! wrote for valid, signed records with distinct ids and hash-matching
//! blobs with distinct ids gives back exactly those records and blobs,
//! skips nothing, and sees the end marker.

use vstd::prelude::*;
use vstd::utf8::encode_utf8;
use crate::codec::{Model, enc, enc_list, head};
use crate::cbor_lemmas::{prefix_at, head_len, head_low, len_of_low, arg_at, be2_val, be4_val, be8_val, lemma_head_at, lemma_head_shape, lemma_enc_list_front, lemma_enc_unique};
use crate::decode::{decodable, lemma_decodable_sized};
use crate::bundle::{
    be_value, head_arg, item_end, items_end, read_item_at, import_from, decode_item, lemma_be_step, MAX_ITEM_STRING,
    MAX_ITEM_DEPTH, ImportState, step, item_model, hdr_item, records_bytes, parts_bytes, blob_items_bytes, export_blobs,
    export_spec, PART_SPLIT_THRESHOLD, MAGIC, begin_part, import_init, import_spec, dispatch, tag_of, skip, said, flush, deliver_blob,
    on_record, on_blob, on_part, on_end, arr_bytes, arr_uint,
};
use crate::record::{RecordModel, envelope, model_ok, sig_valid, spec_record_id, record_of_bytes, lemma_record_of_bytes};
use crate::blob::{CHUNK_SIZE, chunk_count, chunk_of};
use crate::crypto::blake3_digest;

verus! {

/// The value of the first `n` big-endian bytes (n = 1, 2, 4 or 8) is
/// what a head's argument bytes say.
proof fn lemma_be_value_n(s: Seq<u8>)
    requires
        s.len() == 1 || s.len() == 2 || s.len() == 4 || s.len() == 8,
    ensures
        s.len() == 1 ==> be_value(s) == s[0] as int,
        s.len() == 2 ==> be_value(s) == be2_val(s[0], s[1]),
        s.len() == 4 ==> be_value(s) == be4_val(s),
        s.len() == 8 ==> be_value(s) == be8_val(s),
{
    assert(s.subrange(0, 0) =~= Seq::<u8>::empty());
    assert(s.subrange(0, s.len() as int) =~= s);
    lemma_be_step(s, 0);
    if s.len() > 1 {
        lemma_be_step(s, 1);
    }
    if s.len() > 2 {
        lemma_be_step(s, 2);
        lemma_be_step(s, 3);
    }
    if s.len() > 4 {
        lemma_be_step(s, 4);
        lemma_be_step(s, 5);
        lemma_be_step(s, 6);
        lemma_be_step(s, 7);
    }
}

/// The head at `pos` is read back as the argument it was written with.
proof fn lemma_head_arg(b: Seq<u8>, pos: int, major: u8, a: u64)
    requires
        major < 8,
        prefix_at(head(major, a), b, pos),
    ensures
        head_arg(b, pos) == Some((a as nat, pos + head_len(a))),
        b[pos] / 32 == major,
        pos + head_len(a) <= b.len(),
{
    lemma_head_at(major, a, b, pos);
    lemma_head_shape(major, a);
    let low = head_low(a);
    assert(b[pos] % 32 == low && b[pos] / 32 == major) by (nonlinear_arith)
        requires
            b[pos] == major * 32 + low,
            low < 28,
    ;
    if low >= 24 {
        let n: int = if low == 24 {
            1
        } else if low == 25 {
            2
        } else if low == 26 {
            4
        } else {
            8
        };
        let s = b.subrange(pos + 1, pos + 1 + n);
        lemma_be_value_n(s);
        assert(s[0] == b[pos + 1]);
        if n >= 2 {
            assert(s[1] == b[pos + 2]);
        }
    }
}

/// An element a bundle item may hold: a number, a byte or text string
/// within the item limit, or an empty map.
pub open spec fn flat_elem(e: Model) -> bool {
    match e {
        Model::Uint(_) => true,
        Model::Bytes(x) => x.len() <= MAX_ITEM_STRING,
        Model::Text(t) => encode_utf8(t).len() <= MAX_ITEM_STRING,
        Model::Dict(es) => es.len() == 0,
        _ => false,
    }
}

/// The shape of a bundle item: a short array of such elements.
pub open spec fn item_shape(m: Model) -> bool {
    &&& m is Array
    &&& m->Array_0.len() < 24
    &&& forall|i: int| 0 <= i < m->Array_0.len() ==> flat_elem(#[trigger] m->Array_0[i])
}

/// An element found at `p` ends where its encoding ends.
proof fn lemma_elem_end(b: Seq<u8>, p: int, e: Model, d: int)
    requires
        flat_elem(e),
        prefix_at(enc(e), b, p),
        0 <= d,
        d + 1 < MAX_ITEM_DEPTH,
    ensures
        item_end(b, p, d) == Some(p + enc(e).len()),
{
    match e {
        Model::Uint(n) => {
            lemma_head_arg(b, p, 0, n);
        },
        Model::Bytes(x) => {
            let h = head(2, x.len() as u64);
            assert(prefix_at(h, b, p)) by {
                assert(enc(e).subrange(0, h.len() as int) =~= h);
                assert(b.subrange(p, p + h.len()) =~= enc(e).subrange(0, h.len() as int));
            }
            lemma_head_arg(b, p, 2, x.len() as u64);
            lemma_head_shape(2, x.len() as u64);
        },
        Model::Text(t) => {
            let u = encode_utf8(t);
            let h = head(3, u.len() as u64);
            assert(prefix_at(h, b, p)) by {
                assert(enc(e).subrange(0, h.len() as int) =~= h);
                assert(b.subrange(p, p + h.len()) =~= enc(e).subrange(0, h.len() as int));
            }
            lemma_head_arg(b, p, 3, u.len() as u64);
            lemma_head_shape(3, u.len() as u64);
        },
        Model::Dict(es) => {
            assert(enc_list(Seq::<Model>::empty()) == Seq::<u8>::empty());
            assert(crate::codec::enc_entries(es) =~= Seq::<u8>::empty());
            assert(enc(e) =~= head(5, 0));
            lemma_head_arg(b, p, 5, 0);
        },
        _ => {},
    }
}

/// Elements `j..` of an item, found at `p`, end where their encodings end.
proof fn lemma_elems_end(b: Seq<u8>, p: int, items: Seq<Model>)
    requires
        forall|i: int| 0 <= i < items.len() ==> flat_elem(#[trigger] items[i]),
        prefix_at(enc_list(items), b, p),
    ensures
        items_end(b, p, items.len(), 1) == Some(p + enc_list(items).len()),
    decreases items.len(),
{
    if items.len() > 0 {
        lemma_enc_list_front(items);
        let e = items[0];
        let rest = items.drop_first();
        let l0 = enc(e).len() as int;
        assert(prefix_at(enc(e), b, p)) by {
            assert(b.subrange(p, p + l0) =~= enc_list(items).subrange(0, l0));
            assert(enc_list(items).subrange(0, l0) =~= enc(e));
        }
        assert(prefix_at(enc_list(rest), b, p + l0)) by {
            assert(b.subrange(p + l0, p + l0 + enc_list(rest).len()) =~= enc_list(items).subrange(l0, enc_list(items).len() as int));
            assert(enc_list(items).subrange(l0, enc_list(items).len() as int) =~= enc_list(rest));
        }
        lemma_elem_end(b, p, e, 1);
        crate::cbor_lemmas::lemma_enc_shape(e);
        assert(forall|i: int| 0 <= i < rest.len() ==> flat_elem(#[trigger] rest[i]) ) by {
            assert forall|i: int| 0 <= i < rest.len() implies flat_elem(#[trigger] rest[i]) by {
                assert(rest[i] == items[i + 1]);
            }
        }
        lemma_elems_end(b, p + l0, rest);
        assert(((items.len() as nat) - 1) as nat == rest.len());
    }
}

/// An item found at `pos` ends where its encoding ends.
proof fn lemma_item_end(b: Seq<u8>, pos: int, m: Model)
    requires
        item_shape(m),
        prefix_at(enc(m), b, pos),
    ensures
        item_end(b, pos, 0) == Some(pos + enc(m).len()),
        enc(m).len() > 0,
{
    let items = m->Array_0;
    let h = head(4, items.len() as u64);
    lemma_head_shape(4, items.len() as u64);
    assert(enc(m) == h + enc_list(items));
    assert(prefix_at(h, b, pos)) by {
        assert(b.subrange(pos, pos + h.len()) =~= enc(m).subrange(0, h.len() as int));
        assert(enc(m).subrange(0, h.len() as int) =~= h);
    }
    lemma_head_arg(b, pos, 4, items.len() as u64);
    assert(prefix_at(enc_list(items), b, pos + 1)) by {
        assert(b.subrange(pos + 1, pos + 1 + enc_list(items).len()) =~= enc(m).subrange(1, enc(m).len() as int));
        assert(enc(m).subrange(1, enc(m).len() as int) =~= enc_list(items));
    }
    lemma_elems_end(b, pos + 1, items);
}

/// A bundle item decodes to itself.
proof fn lemma_item_decodable(m: Model)
    requires
        item_shape(m),
    ensures
        decodable(m, 0),
        decode_item(enc(m)) == Some(m),
{
    let items = m->Array_0;
    assert forall|i: int| 0 <= i < items.len() implies decodable(#[trigger] items[i], 1) by {
        assert(flat_elem(items[i]));
        match items[i] {
            Model::Dict(es) => {
                assert(crate::decode::keys_ascending(es));
            },
            _ => {},
        }
    }
    let b = enc(m);
    let c = choose|x: Model| decodable(x, 0) && enc(x) == b;
    lemma_decodable_sized(m, 0);
    lemma_decodable_sized(c, 0);
    assert(b.subrange(0, b.len() as int) =~= b);
    lemma_enc_unique(m, c, b, 0);
}

/// The state after stepping through the items in order.
pub open spec fn run_items(st: ImportState, ms: Seq<Model>) -> ImportState
    decreases ms.len(),
{
    if ms.len() == 0 {
        st
    } else {
        step(run_items(st, ms.drop_last()), enc(ms.last()))
    }
}

proof fn lemma_run_concat(st: ImportState, a: Seq<Model>, b: Seq<Model>)
    ensures
        run_items(st, a + b) == run_items(run_items(st, a), b),
    decreases b.len(),
{
    if b.len() == 0 {
        assert(a + b =~= a);
    } else {
        lemma_run_concat(st, a, b.drop_last());
        assert((a + b).drop_last() =~= a + b.drop_last());
        assert((a + b).last() == b.last());
    }
}

/// Items found one after another from `pos` are read and stepped
/// through in order.
proof fn lemma_import_items(b: Seq<u8>, pos: int, st: ImportState, ms: Seq<Model>)
    requires
        forall|i: int| 0 <= i < ms.len() ==> item_shape(#[trigger] ms[i]),
        prefix_at(enc_list(ms), b, pos),
    ensures
        import_from(b, pos, st) == import_from(b, pos + enc_list(ms).len(), run_items(st, ms)),
    decreases ms.len(),
{
    if ms.len() > 0 {
        lemma_enc_list_front(ms);
        let m = ms[0];
        let rest = ms.drop_first();
        let l0 = enc(m).len() as int;
        assert(prefix_at(enc(m), b, pos)) by {
            assert(b.subrange(pos, pos + l0) =~= enc_list(ms).subrange(0, l0));
            assert(enc_list(ms).subrange(0, l0) =~= enc(m));
        }
        assert(prefix_at(enc_list(rest), b, pos + l0)) by {
            assert(b.subrange(pos + l0, pos + l0 + enc_list(rest).len()) =~= enc_list(ms).subrange(l0, enc_list(ms).len() as int));
            assert(enc_list(ms).subrange(l0, enc_list(ms).len() as int) =~= enc_list(rest));
        }
        lemma_item_end(b, pos, m);
        assert(read_item_at(b, pos) == Some(Some(pos + l0)));
        assert(b.subrange(pos, pos + l0) == enc(m));
        let st1 = step(st, enc(m));
        assert(import_from(b, pos, st) == import_from(b, pos + l0, st1));
        assert forall|i: int| 0 <= i < rest.len() implies item_shape(#[trigger] rest[i]) by {
            assert(rest[i] == ms[i + 1]);
        }
        lemma_import_items(b, pos + l0, st1, rest);
        assert(seq![m] + rest =~= ms);
        lemma_run_concat(st, seq![m], rest);
        assert(seq![m].drop_last() =~= Seq::<Model>::empty());
        assert(run_items(st, Seq::<Model>::empty()) == st);
        assert(seq![m].last() == m);
        assert(run_items(st, seq![m]) == step(run_items(st, seq![m].drop_last()), enc(seq![m].last())));
        assert(run_items(st, seq![m]) == st1);
    }
}

// ---------------------------------------------------------------------
// What an export writes, as a list of items
// ---------------------------------------------------------------------

/// `["r", wire bytes]`.
pub open spec fn record_item(r: RecordModel) -> Model {
    item_model(seq!['r'], seq![Model::Bytes(enc(envelope(r, true)))])
}

pub open spec fn record_items(rs: Seq<RecordModel>) -> Seq<Model> {
    Seq::new(rs.len(), |i: int| record_item(rs[i]))
}

/// `["bp", id, index, chunk]`.
pub open spec fn part_item(id: Seq<u8>, c: Seq<u8>, i: int) -> Model {
    item_model(seq!['b', 'p'], seq![Model::Bytes(id), Model::Uint(i as u64), Model::Bytes(chunk_of(c, i))])
}

pub open spec fn part_items(id: Seq<u8>, c: Seq<u8>) -> Seq<Model> {
    Seq::new(chunk_count(c.len() as int) as nat, |i: int| part_item(id, c, i))
}

/// Whether a blob is written as parts.
pub open spec fn parted(c: Seq<u8>) -> bool {
    c.len() > PART_SPLIT_THRESHOLD
}

/// The items of one blob.
pub open spec fn blob_items_of(id: Seq<u8>, c: Seq<u8>) -> Seq<Model> {
    if parted(c) {
        part_items(id, c)
    } else {
        seq![item_model(seq!['b'], seq![Model::Bytes(id), Model::Bytes(c)])]
    }
}

/// The items of the blobs, in order.
pub open spec fn blob_items(bs: Seq<(Seq<u8>, Seq<u8>)>) -> Seq<Model>
    decreases bs.len(),
{
    if bs.len() == 0 {
        Seq::empty()
    } else {
        blob_items_of(bs[0].0, bs[0].1) + blob_items(bs.drop_first())
    }
}

/// `["end", records, blobs]`.
pub open spec fn end_item(rc: nat, bc: nat) -> Model {
    item_model(seq!['e', 'n', 'd'], seq![Model::Uint(rc as u64), Model::Uint(bc as u64)])
}

/// Every item of a bundle of these records and blobs.
pub open spec fn bundle_items(rs: Seq<RecordModel>, bs: Seq<(Seq<u8>, Seq<u8>)>) -> Seq<Model> {
    seq![hdr_item()] + record_items(rs) + blob_items(bs) + seq![end_item(rs.len(), bs.len())]
}

proof fn lemma_enc_list_concat(a: Seq<Model>, b: Seq<Model>)
    ensures
        enc_list(a + b) == enc_list(a) + enc_list(b),
{
    crate::cbor_lemmas::lemma_enc_list_split(a + b, a.len() as int);
    assert((a + b).take(a.len() as int) =~= a);
    assert((a + b).skip(a.len() as int) =~= b);
}

proof fn lemma_enc_list_one(m: Model)
    ensures
        enc_list(seq![m]) == enc(m),
{
    assert(seq![m].drop_last() =~= Seq::<Model>::empty());
    assert(enc_list(Seq::<Model>::empty()) =~= Seq::<u8>::empty());
    assert(seq![m].last() == m);
    assert(enc_list(seq![m]) == enc_list(seq![m].drop_last()) + enc(seq![m].last()));
    assert(enc_list(seq![m]) =~= enc(m));
}

proof fn lemma_records_bytes(rs: Seq<RecordModel>)
    ensures
        records_bytes(rs) == enc_list(record_items(rs)),
    decreases rs.len(),
{
    if rs.len() > 0 {
        lemma_records_bytes(rs.drop_last());
        assert(record_items(rs).drop_last() =~= record_items(rs.drop_last()));
    }
}

proof fn lemma_parts_bytes(id: Seq<u8>, c: Seq<u8>, i: int)
    requires
        0 <= i <= chunk_count(c.len() as int),
    ensures
        parts_bytes(id, c, i) == enc_list(part_items(id, c).skip(i)),
    decreases chunk_count(c.len() as int) - i,
{
    let n = chunk_count(c.len() as int);
    let ps = part_items(id, c);
    if i == n {
        assert(ps.skip(i) =~= Seq::<Model>::empty());
    } else {
        lemma_parts_bytes(id, c, i + 1);
        lemma_enc_list_front(ps.skip(i));
        assert(ps.skip(i).drop_first() =~= ps.skip(i + 1));
        assert(ps.skip(i)[0] == part_item(id, c, i));
    }
}

proof fn lemma_blob_items_bytes(id: Seq<u8>, c: Seq<u8>)
    ensures
        blob_items_bytes(id, c) == enc_list(blob_items_of(id, c)),
{
    if parted(c) {
        lemma_parts_bytes(id, c, 0);
        assert(part_items(id, c).skip(0) =~= part_items(id, c));
    } else {
        lemma_enc_list_one(item_model(seq!['b'], seq![Model::Bytes(id), Model::Bytes(c)]));
    }
}

/// Blobs that match their ids and have distinct ids, none written yet.
pub open spec fn blobs_ok(bs: Seq<(Seq<u8>, Seq<u8>)>) -> bool {
    &&& forall|i: int| 0 <= i < bs.len() ==> blake3_digest(#[trigger] bs[i].1) == bs[i].0 && bs[i].0.len() == 32
    &&& forall|i: int, j: int| 0 <= i < j < bs.len() ==> #[trigger] bs[i].0 != #[trigger] bs[j].0
}

/// The ids of blobs.
pub open spec fn blob_ids(bs: Seq<(Seq<u8>, Seq<u8>)>) -> Seq<Seq<u8>> {
    Seq::new(bs.len(), |i: int| bs[i].0)
}

proof fn lemma_export_blobs(bs: Seq<(Seq<u8>, Seq<u8>)>, seen: Seq<Seq<u8>>)
    requires
        blobs_ok(bs),
        forall|i: int| 0 <= i < bs.len() ==> !seen.contains(#[trigger] bs[i].0),
    ensures
        export_blobs(bs, seen) == (enc_list(blob_items(bs)), seen + blob_ids(bs), true),
    decreases bs.len(),
{
    if bs.len() == 0 {
        assert(seen + blob_ids(bs) =~= seen);
    } else {
        let (id, c) = bs[0];
        let rest = bs.drop_first();
        assert(blobs_ok(rest)) by {
            assert forall|i: int| 0 <= i < rest.len() implies blake3_digest(#[trigger] rest[i].1) == rest[i].0 && rest[i].0.len() == 32 by {
                assert(rest[i] == bs[i + 1]);
            }
            assert forall|i: int, j: int| 0 <= i < j < rest.len() implies #[trigger] rest[i].0 != #[trigger] rest[j].0 by {
                assert(rest[i] == bs[i + 1] && rest[j] == bs[j + 1]);
            }
        }
        assert forall|i: int| 0 <= i < rest.len() implies !seen.push(id).contains(#[trigger] rest[i].0) by {
            assert(rest[i] == bs[i + 1]);
            assert(bs[0].0 != bs[i + 1].0);
            if seen.push(id).contains(rest[i].0) {
                let k = choose|k: int| 0 <= k < seen.push(id).len() && seen.push(id)[k] == rest[i].0;
                if k < seen.len() {
                    assert(seen.contains(bs[i + 1].0));
                }
            }
        }
        lemma_export_blobs(rest, seen.push(id));
        lemma_blob_items_bytes(id, c);
        lemma_enc_list_concat(blob_items_of(id, c), blob_items(rest));
        assert(seen.push(id) + blob_ids(rest) =~= seen + blob_ids(bs));
    }
}

/// What an export writes, as the magic and a list of items.
proof fn lemma_export_items(rs: Seq<RecordModel>, bs: Seq<(Seq<u8>, Seq<u8>)>)
    requires
        blobs_ok(bs),
    ensures
        export_spec(rs, bs) == (MAGIC@ + enc_list(bundle_items(rs, bs)), true),
{
    lemma_export_blobs(bs, Seq::empty());
    assert(Seq::<Seq<u8>>::empty() + blob_ids(bs) =~= blob_ids(bs));
    lemma_records_bytes(rs);
    lemma_enc_list_one(hdr_item());
    lemma_enc_list_one(end_item(rs.len(), bs.len()));
    let a = seq![hdr_item()];
    let b = record_items(rs);
    let c = blob_items(bs);
    let d = seq![end_item(rs.len(), bs.len())];
    lemma_enc_list_concat(a, b);
    lemma_enc_list_concat(a + b, c);
    lemma_enc_list_concat(a + b + c, d);
    assert(MAGIC@ + enc_list(bundle_items(rs, bs)) =~= MAGIC@ + enc(hdr_item()) + records_bytes(rs) + enc_list(c) + enc(end_item(rs.len(), bs.len())));
}

// ---------------------------------------------------------------------
// What an import makes of those items
// ---------------------------------------------------------------------

/// Stepping through a bundle item: its decoded array is dispatched.
proof fn lemma_step_item(st: ImportState, m: Model)
    requires
        item_shape(m),
    ensures
        step(st, enc(m)) == (if st.ended {
            skip(st, said("item after end marker"))
        } else if st.first {
            let st1 = ImportState { first: false, ..st };
            if tag_of(m->Array_0) == seq!['h', 'd', 'r'] {
                st1
            } else {
                dispatch(skip(st1, said("first item is not hdr")), m->Array_0)
            }
        } else {
            dispatch(st, m->Array_0)
        }),
{
    lemma_item_decodable(m);
}

proof fn lemma_tag_text(t: Seq<char>)
    requires
        t.len() <= 3,
        forall|i: int| 0 <= i < t.len() ==> 'a' <= #[trigger] t[i] <= 'z',
    ensures
        encode_utf8(t).len() == t.len(),
{
    assert(vstd::utf8::is_ascii_chars(t));
    vstd::utf8::is_ascii_chars_encode_utf8(t);
}

/// A record the import takes back: well formed, its wire form
/// decodable and within the item limit, its signature valid.
pub open spec fn record_ok(r: RecordModel) -> bool {
    &&& model_ok(r)
    &&& decodable(envelope(r, true), 0)
    &&& enc(envelope(r, true)).len() <= MAX_ITEM_STRING
    &&& sig_valid(r)
}

/// Records the import takes back, with distinct ids.
pub open spec fn records_ok(rs: Seq<RecordModel>) -> bool {
    &&& forall|i: int| 0 <= i < rs.len() ==> record_ok(#[trigger] rs[i])
    &&& forall|i: int, j: int| 0 <= i < j < rs.len() ==> spec_record_id(#[trigger] rs[i]) != spec_record_id(#[trigger] rs[j])
}

pub open spec fn record_ids(rs: Seq<RecordModel>) -> Seq<Seq<u8>> {
    Seq::new(rs.len(), |i: int| spec_record_id(rs[i]))
}

/// The state once the header and the records are read.
pub open spec fn rec_state(rs: Seq<RecordModel>) -> ImportState {
    ImportState {
        first: false,
        ended: false,
        pending: None,
        seen_records: record_ids(rs),
        seen_blobs: Seq::empty(),
        records: rs,
        blobs: Seq::empty(),
        skipped: Seq::empty(),
    }
}

proof fn lemma_record_item_shape(r: RecordModel)
    requires
        record_ok(r),
    ensures
        item_shape(record_item(r)),
{
    lemma_tag_text(seq!['r']);
    let items = record_item(r)->Array_0;
    assert(items[0] == Model::Text(seq!['r']));
    assert(items[1] == Model::Bytes(enc(envelope(r, true))));
}

proof fn lemma_run_records(rs: Seq<RecordModel>, k: int)
    requires
        records_ok(rs),
        0 <= k <= rs.len(),
    ensures
        run_items(rec_state(Seq::empty()), record_items(rs.take(k))) == rec_state(rs.take(k)),
    decreases k,
{
    if k == 0 {
        assert(record_items(rs.take(0)) =~= Seq::<Model>::empty());
        assert(rec_state(rs.take(0)) == rec_state(Seq::empty())) by {
            assert(rs.take(0) =~= Seq::<RecordModel>::empty());
            assert(record_ids(rs.take(0)) =~= record_ids(Seq::empty()));
        }
    } else {
        lemma_run_records(rs, k - 1);
        let r = rs[k - 1];
        let items = record_items(rs.take(k));
        assert(items.drop_last() =~= record_items(rs.take(k - 1)));
        assert(items.last() == record_item(r));
        let st = rec_state(rs.take(k - 1));
        lemma_record_item_shape(r);
        lemma_step_item(st, record_item(r));
        let arr = record_item(r)->Array_0;
        assert(tag_of(arr) == seq!['r']);
        assert(seq!['r'] != seq!['h', 'd', 'r']);
        assert(seq!['r'] =~= seq!['r']);
        assert(dispatch(st, arr) == on_record(st, arr));
        assert(flush(st) == st);
        assert(arr_bytes(arr, 1) == Some(enc(envelope(r, true))));
        lemma_record_of_bytes(enc(envelope(r, true)), r);
        assert(!st.seen_records.contains(spec_record_id(r))) by {
            if st.seen_records.contains(spec_record_id(r)) {
                let j = choose|j: int| 0 <= j < st.seen_records.len() && st.seen_records[j] == spec_record_id(r);
                assert(st.seen_records[j] == spec_record_id(rs[j]));
            }
        }
        assert(record_ids(rs.take(k)) =~= record_ids(rs.take(k - 1)).push(spec_record_id(r)));
        assert(rs.take(k) =~= rs.take(k - 1).push(r));
    }
}

/// A blob written as parts whose last part is a whole chunk: the import
/// completes it only at the next item.
pub open spec fn exact_parted(c: Seq<u8>) -> bool {
    parted(c) && c.len() % (CHUNK_SIZE as nat) == 0
}

/// The state once the records and the blobs `bs` are read.
pub open spec fn blob_state(rs: Seq<RecordModel>, bs: Seq<(Seq<u8>, Seq<u8>)>) -> ImportState {
    ImportState { seen_blobs: blob_ids(bs), blobs: bs, ..rec_state(rs) }
}

/// The state once the records and the first `k` blobs are read: the
/// last of them still pending when it ended on a whole chunk.
pub open spec fn acc(rs: Seq<RecordModel>, bs: Seq<(Seq<u8>, Seq<u8>)>, k: int) -> ImportState {
    if k > 0 && exact_parted(bs[k - 1].1) {
        ImportState {
            pending: Some((bs[k - 1].0, chunk_count(bs[k - 1].1.len() as int), bs[k - 1].1)),
            ..blob_state(rs, bs.take(k - 1))
        }
    } else {
        blob_state(rs, bs.take(k))
    }
}

proof fn lemma_deliver(rs: Seq<RecordModel>, bs: Seq<(Seq<u8>, Seq<u8>)>, k: int)
    requires
        blobs_ok(bs),
        0 <= k < bs.len(),
    ensures
        deliver_blob(blob_state(rs, bs.take(k)), bs[k].0, bs[k].1) == blob_state(rs, bs.take(k + 1)),
{
    let st = blob_state(rs, bs.take(k));
    assert(!st.seen_blobs.contains(bs[k].0)) by {
        if st.seen_blobs.contains(bs[k].0) {
            let j = choose|j: int| 0 <= j < st.seen_blobs.len() && st.seen_blobs[j] == bs[k].0;
            assert(st.seen_blobs[j] == bs[j].0);
        }
    }
    assert(blob_ids(bs.take(k + 1)) =~= blob_ids(bs.take(k)).push(bs[k].0));
    assert(bs.take(k + 1) =~= bs.take(k).push(bs[k]));
}

proof fn lemma_flush_acc(rs: Seq<RecordModel>, bs: Seq<(Seq<u8>, Seq<u8>)>, k: int)
    requires
        blobs_ok(bs),
        0 <= k <= bs.len(),
    ensures
        flush(acc(rs, bs, k)) == blob_state(rs, bs.take(k)),
{
    if k > 0 && exact_parted(bs[k - 1].1) {
        let st = acc(rs, bs, k);
        let cleared = ImportState { pending: None, ..st };
        assert(cleared == blob_state(rs, bs.take(k - 1)));
        lemma_deliver(rs, bs, k - 1);
    }
}

/// Chunk facts for a blob written as parts.
proof fn lemma_chunks(c: Seq<u8>, j: int)
    requires
        parted(c),
        0 <= j < chunk_count(c.len() as int),
    ensures
        chunk_count(c.len() as int) >= 2,
        j * CHUNK_SIZE < c.len(),
        j < chunk_count(c.len() as int) - 1 ==> chunk_of(c, j) == c.subrange(j * CHUNK_SIZE, (j + 1) * CHUNK_SIZE)
            && (j + 1) * CHUNK_SIZE < c.len(),
        j == chunk_count(c.len() as int) - 1 ==> chunk_of(c, j) == c.subrange(j * CHUNK_SIZE, c.len() as int) && (
        (c.len() - j * CHUNK_SIZE < CHUNK_SIZE) <==> !exact_parted(c)),
{
    let len = c.len() as int;
    let n = chunk_count(len);
    crate::bundle::lemma_chunk_count(len);
    let q = len / 1048576;
    let r = len % 1048576;
    assert(len == q * 1048576 + r && 0 <= r < 1048576);
    assert(n == q + if r != 0 { 1int } else { 0int });
    assert(q >= 16);
}

/// The state with the first `j` parts of blob `(id, c)` gathered.
pub open spec fn gathering(st: ImportState, id: Seq<u8>, c: Seq<u8>, j: int) -> ImportState {
    ImportState { pending: Some((id, j, c.subrange(0, j * CHUNK_SIZE))), ..st }
}

/// A state between items, with no blob pending.
pub open spec fn idle(st: ImportState) -> bool {
    !st.ended && !st.first && st.pending is None
}

/// A blob written as parts that matches its id, not delivered yet.
pub open spec fn part_blob_ok(st: ImportState, id: Seq<u8>, c: Seq<u8>) -> bool {
    &&& parted(c)
    &&& c.len() <= u64::MAX
    &&& id.len() == 32
    &&& blake3_digest(c) == id
    &&& !st.seen_blobs.contains(id)
}

proof fn lemma_part_item(id: Seq<u8>, c: Seq<u8>, j: int)
    requires
        parted(c),
        c.len() <= u64::MAX,
        id.len() == 32,
        0 <= j < chunk_count(c.len() as int),
    ensures
        item_shape(part_item(id, c, j)),
        tag_of(part_item(id, c, j)->Array_0) == seq!['b', 'p'],
        arr_bytes(part_item(id, c, j)->Array_0, 1) == Some(id),
        arr_uint(part_item(id, c, j)->Array_0, 2) == Some(j as u64),
        arr_bytes(part_item(id, c, j)->Array_0, 3) == Some(chunk_of(c, j)),
        j as u64 == j,
        chunk_of(c, j).len() <= CHUNK_SIZE,
{
    lemma_chunks(c, j);
    lemma_tag_text(seq!['b', 'p']);
    let arr = part_item(id, c, j)->Array_0;
    assert(arr[0] == Model::Text(seq!['b', 'p']));
    assert(arr[1] == Model::Bytes(id));
    assert(arr[2] == Model::Uint(j as u64));
    assert(arr[3] == Model::Bytes(chunk_of(c, j)));
    assert(j < 0x1_0000_0000_0000_0000);
}

/// A part item is dispatched to the part handler.
proof fn lemma_part_dispatch(st: ImportState, id: Seq<u8>, c: Seq<u8>, j: int)
    requires
        parted(c),
        c.len() <= u64::MAX,
        id.len() == 32,
        0 <= j < chunk_count(c.len() as int),
        !st.ended,
        !st.first,
    ensures
        step(st, enc(part_item(id, c, j))) == on_part(st, part_item(id, c, j)->Array_0),
{
    lemma_part_item(id, c, j);
    lemma_step_item(st, part_item(id, c, j));
    let arr = part_item(id, c, j)->Array_0;
    assert(seq!['b', 'p'] != seq!['h', 'd', 'r']);
    assert(seq!['b', 'p'] != seq!['r']);
    assert(seq!['b', 'p'] != seq!['b']);
    assert(seq!['b', 'p'] =~= seq!['b', 'p']);
}

proof fn lemma_run_parts(st: ImportState, id: Seq<u8>, c: Seq<u8>, j: int)
    requires
        idle(st),
        part_blob_ok(st, id, c),
        1 <= j < chunk_count(c.len() as int),
    ensures
        run_items(st, part_items(id, c).take(j)) == gathering(st, id, c, j),
    decreases j,
{
    let ps = part_items(id, c);
    let pre = ps.take(j);
    assert(pre.drop_last() =~= ps.take(j - 1));
    assert(pre.last() == part_item(id, c, j - 1));
    lemma_chunks(c, j - 1);
    lemma_part_item(id, c, j - 1);
    if j == 1 {
        assert(ps.take(0) =~= Seq::<Model>::empty());
        lemma_part_dispatch(st, id, c, 0);
        assert(c.subrange(0, 0) + chunk_of(c, 0) =~= c.subrange(0, CHUNK_SIZE as int));
        assert(chunk_of(c, 0) =~= c.subrange(0, CHUNK_SIZE as int));
    } else {
        lemma_run_parts(st, id, c, j - 1);
        let g = gathering(st, id, c, j - 1);
        lemma_part_dispatch(g, id, c, j - 1);
        assert(c.subrange(0, (j - 1) * CHUNK_SIZE) + chunk_of(c, j - 1) =~= c.subrange(0, j * CHUNK_SIZE));
    }
}

/// All the parts of a blob: it is delivered when its last part is
/// short, else left pending, complete.
proof fn lemma_run_all_parts(st: ImportState, id: Seq<u8>, c: Seq<u8>)
    requires
        idle(st),
        part_blob_ok(st, id, c),
    ensures
        run_items(st, part_items(id, c)) == (if exact_parted(c) {
            ImportState { pending: Some((id, chunk_count(c.len() as int), c)), ..st }
        } else {
            deliver_blob(st, id, c)
        }),
{
    let n = chunk_count(c.len() as int);
    lemma_chunks(c, 0);
    let ps = part_items(id, c);
    lemma_run_parts(st, id, c, n - 1);
    assert(ps.drop_last() =~= ps.take(n - 1));
    assert(ps.last() == part_item(id, c, n - 1));
    lemma_chunks(c, n - 1);
    lemma_part_item(id, c, n - 1);
    let g = gathering(st, id, c, n - 1);
    lemma_part_dispatch(g, id, c, n - 1);
    assert(c.subrange(0, (n - 1) * CHUNK_SIZE) + chunk_of(c, n - 1) =~= c);
}

/// No blob written as parts follows one whose parts end on a whole
/// chunk: such a blob is still pending when the next one's first part
/// comes, and that part is reported and dropped.
pub open spec fn parts_follow_ok(bs: Seq<(Seq<u8>, Seq<u8>)>) -> bool {
    forall|k: int| 0 < k < bs.len() && exact_parted(#[trigger] bs[k - 1].1) ==> !parted(bs[k].1)
}

/// Blob contents of a size a `Vec` can hold.
pub open spec fn blob_sizes_ok(bs: Seq<(Seq<u8>, Seq<u8>)>) -> bool {
    forall|i: int| 0 <= i < bs.len() ==> (#[trigger] bs[i]).1.len() <= u64::MAX
}

proof fn lemma_whole_item(id: Seq<u8>, c: Seq<u8>)
    requires
        !parted(c),
        id.len() == 32,
    ensures
        item_shape(item_model(seq!['b'], seq![Model::Bytes(id), Model::Bytes(c)])),
        tag_of(item_model(seq!['b'], seq![Model::Bytes(id), Model::Bytes(c)])->Array_0) == seq!['b'],
        arr_bytes(item_model(seq!['b'], seq![Model::Bytes(id), Model::Bytes(c)])->Array_0, 1) == Some(id),
        arr_bytes(item_model(seq!['b'], seq![Model::Bytes(id), Model::Bytes(c)])->Array_0, 2) == Some(c),
{
    lemma_tag_text(seq!['b']);
    let arr = item_model(seq!['b'], seq![Model::Bytes(id), Model::Bytes(c)])->Array_0;
    assert(arr[0] == Model::Text(seq!['b']));
    assert(arr[1] == Model::Bytes(id));
    assert(arr[2] == Model::Bytes(c));
}

proof fn lemma_blob_step(rs: Seq<RecordModel>, bs: Seq<(Seq<u8>, Seq<u8>)>, k: int)
    requires
        blobs_ok(bs),
        blob_sizes_ok(bs),
        parts_follow_ok(bs),
        0 <= k < bs.len(),
    ensures
        run_items(acc(rs, bs, k), blob_items_of(bs[k].0, bs[k].1)) == acc(rs, bs, k + 1),
{
    let (id, c) = bs[k];
    let st = acc(rs, bs, k);
    assert(blake3_digest(bs[k].1) == bs[k].0 && bs[k].0.len() == 32);
    assert(bs[k].1.len() <= u64::MAX);
    lemma_flush_acc(rs, bs, k);
    lemma_deliver(rs, bs, k);
    if parted(c) {
        let idle_st = blob_state(rs, bs.take(k));
        assert(!idle_st.seen_blobs.contains(id)) by {
            if idle_st.seen_blobs.contains(id) {
                let j = choose|j: int| 0 <= j < idle_st.seen_blobs.len() && idle_st.seen_blobs[j] == id;
                assert(idle_st.seen_blobs[j] == bs[j].0);
            }
        }
        lemma_run_all_parts(idle_st, id, c);
        assert(st == idle_st);
    } else {
        let m = item_model(seq!['b'], seq![Model::Bytes(id), Model::Bytes(c)]);
        lemma_whole_item(id, c);
        lemma_step_item(st, m);
        assert(seq!['b'] != seq!['h', 'd', 'r']);
        assert(seq!['b'] != seq!['r']);
        assert(seq!['b'] =~= seq!['b']);
        assert(seq![m].drop_last() =~= Seq::<Model>::empty());
        assert(run_items(st, seq![m]) == step(run_items(st, Seq::<Model>::empty()), enc(m)));
    }
}

proof fn lemma_run_blobs(rs: Seq<RecordModel>, bs: Seq<(Seq<u8>, Seq<u8>)>, k: int)
    requires
        blobs_ok(bs),
        blob_sizes_ok(bs),
        parts_follow_ok(bs),
        0 <= k <= bs.len(),
    ensures
        run_items(acc(rs, bs, k), blob_items(bs.skip(k))) == acc(rs, bs, bs.len() as int),
    decreases bs.len() - k,
{
    if k == bs.len() {
        assert(bs.skip(k) =~= Seq::<(Seq<u8>, Seq<u8>)>::empty());
        assert(blob_items(bs.skip(k)) =~= Seq::<Model>::empty());
    } else {
        assert(bs.skip(k)[0] == bs[k]);
        assert(bs.skip(k).drop_first() =~= bs.skip(k + 1));
        lemma_blob_step(rs, bs, k);
        lemma_run_concat(acc(rs, bs, k), blob_items_of(bs[k].0, bs[k].1), blob_items(bs.skip(k + 1)));
        lemma_run_blobs(rs, bs, k + 1);
    }
}

proof fn lemma_blob_items_shape(bs: Seq<(Seq<u8>, Seq<u8>)>)
    requires
        blobs_ok(bs),
        blob_sizes_ok(bs),
    ensures
        forall|i: int| 0 <= i < blob_items(bs).len() ==> item_shape(#[trigger] blob_items(bs)[i]),
    decreases bs.len(),
{
    if bs.len() > 0 {
        let rest = bs.drop_first();
        assert(blobs_ok(rest) && blob_sizes_ok(rest)) by {
            assert forall|i: int| 0 <= i < rest.len() implies blake3_digest(#[trigger] rest[i].1) == rest[i].0 && rest[i].0.len() == 32 by {
                assert(rest[i] == bs[i + 1]);
            }
            assert forall|i: int, j: int| 0 <= i < j < rest.len() implies #[trigger] rest[i].0 != #[trigger] rest[j].0 by {
                assert(rest[i] == bs[i + 1] && rest[j] == bs[j + 1]);
            }
            assert forall|i: int| 0 <= i < rest.len() implies (#[trigger] rest[i]).1.len() <= u64::MAX by {
                assert(rest[i] == bs[i + 1]);
            }
        }
        lemma_blob_items_shape(rest);
        let (id, c) = bs[0];
        assert(bs[0].0.len() == 32 && bs[0].1.len() <= u64::MAX);
        let first = blob_items_of(id, c);
        assert forall|i: int| 0 <= i < first.len() implies item_shape(#[trigger] first[i]) by {
            if parted(c) {
                lemma_part_item(id, c, i);
            } else {
                lemma_whole_item(id, c);
            }
        }
        let all = blob_items(bs);
        assert(all == first + blob_items(rest));
        assert forall|i: int| 0 <= i < all.len() implies item_shape(#[trigger] all[i]) by {
            if i < first.len() {
                assert(all[i] == first[i]);
            } else {
                assert(all[i] == blob_items(rest)[i - first.len()]);
            }
        }
    }
}

/// What an import of an exported bundle ends with.
pub open spec fn imported(rs: Seq<RecordModel>, bs: Seq<(Seq<u8>, Seq<u8>)>) -> ImportState {
    ImportState { ended: true, ..blob_state(rs, bs) }
}

proof fn lemma_fixed_items(rs: Seq<RecordModel>, bs: Seq<(Seq<u8>, Seq<u8>)>)
    ensures
        item_shape(hdr_item()),
        tag_of(hdr_item()->Array_0) == seq!['h', 'd', 'r'],
        item_shape(end_item(rs.len(), bs.len())),
        tag_of(end_item(rs.len(), bs.len())->Array_0) == seq!['e', 'n', 'd'],
        arr_uint(end_item(rs.len(), bs.len())->Array_0, 1) == Some(rs.len() as u64),
        arr_uint(end_item(rs.len(), bs.len())->Array_0, 2) == Some(bs.len() as u64),
{
    lemma_tag_text(seq!['h', 'd', 'r']);
    lemma_tag_text(seq!['e', 'n', 'd']);
    let h = hdr_item()->Array_0;
    assert(h[0] == Model::Text(seq!['h', 'd', 'r']));
    assert(h[1] == Model::Dict(Seq::empty()));
    let e = end_item(rs.len(), bs.len())->Array_0;
    assert(e[0] == Model::Text(seq!['e', 'n', 'd']));
    assert(e[1] == Model::Uint(rs.len() as u64));
    assert(e[2] == Model::Uint(bs.len() as u64));
}

proof fn lemma_run_one(st: ImportState, m: Model)
    ensures
        run_items(st, seq![m]) == step(st, enc(m)),
{
    assert(seq![m].drop_last() =~= Seq::<Model>::empty());
    assert(seq![m].last() == m);
    assert(run_items(st, Seq::<Model>::empty()) == st);
    assert(run_items(st, seq![m]) == step(run_items(st, seq![m].drop_last()), enc(seq![m].last())));
}

proof fn lemma_items_shape(rs: Seq<RecordModel>, bs: Seq<(Seq<u8>, Seq<u8>)>)
    requires
        records_ok(rs),
        blobs_ok(bs),
        blob_sizes_ok(bs),
    ensures
        forall|i: int| 0 <= i < bundle_items(rs, bs).len() ==> item_shape(#[trigger] bundle_items(rs, bs)[i]),
{
    let items = bundle_items(rs, bs);
    let recs = record_items(rs);
    let blobs = blob_items(bs);
    lemma_fixed_items(rs, bs);
    lemma_blob_items_shape(bs);
    assert forall|i: int| 0 <= i < items.len() implies item_shape(#[trigger] items[i]) by {
        if i == 0 {
            assert(items[i] == hdr_item());
        } else if i < 1 + recs.len() {
            assert(items[i] == recs[i - 1]);
            lemma_record_item_shape(rs[i - 1]);
        } else if i < 1 + recs.len() + blobs.len() {
            assert(items[i] == blobs[i - 1 - recs.len()]);
        } else {
            assert(items[i] == end_item(rs.len(), bs.len()));
        }
    }
}

proof fn lemma_hdr_step()
    ensures
        run_items(import_init(), seq![hdr_item()]) == rec_state(Seq::empty()),
{
    lemma_fixed_items(Seq::empty(), Seq::empty());
    lemma_run_one(import_init(), hdr_item());
    lemma_step_item(import_init(), hdr_item());
    assert(record_ids(Seq::<RecordModel>::empty()) =~= Seq::<Seq<u8>>::empty());
}

proof fn lemma_end_step(rs: Seq<RecordModel>, bs: Seq<(Seq<u8>, Seq<u8>)>)
    requires
        rs.len() <= u64::MAX,
        bs.len() <= u64::MAX,
        blobs_ok(bs),
    ensures
        run_items(acc(rs, bs, bs.len() as int), seq![end_item(rs.len(), bs.len())]) == imported(rs, bs),
{
    let s2 = acc(rs, bs, bs.len() as int);
    lemma_fixed_items(rs, bs);
    lemma_flush_acc(rs, bs, bs.len() as int);
    assert(bs.take(bs.len() as int) =~= bs);
    lemma_run_one(s2, end_item(rs.len(), bs.len()));
    lemma_step_item(s2, end_item(rs.len(), bs.len()));
    assert(seq!['e', 'n', 'd'] != seq!['h', 'd', 'r']);
    assert(seq!['e', 'n', 'd'] != seq!['r']);
    assert(seq!['e', 'n', 'd'] != seq!['b']);
    assert(seq!['e', 'n', 'd'] != seq!['b', 'p']);
    assert(seq!['e', 'n', 'd'] =~= seq!['e', 'n', 'd']);
    assert(blob_ids(bs).len() == bs.len());
    let arr = end_item(rs.len(), bs.len())->Array_0;
    assert(dispatch(s2, arr) == on_end(s2, arr));
    let f = ImportState { ended: true, ..flush(s2) };
    assert(f == imported(rs, bs));
    assert(on_end(s2, arr) == f);
}

proof fn lemma_run_bundle(rs: Seq<RecordModel>, bs: Seq<(Seq<u8>, Seq<u8>)>)
    requires
        records_ok(rs),
        rs.len() <= u64::MAX,
        bs.len() <= u64::MAX,
        blobs_ok(bs),
        blob_sizes_ok(bs),
        parts_follow_ok(bs),
    ensures
        run_items(import_init(), bundle_items(rs, bs)) == imported(rs, bs),
{
    let hdr = seq![hdr_item()];
    let recs = record_items(rs);
    let blobs = blob_items(bs);
    let end = seq![end_item(rs.len(), bs.len())];
    lemma_fixed_items(rs, bs);
    let s0 = run_items(import_init(), hdr);
    lemma_hdr_step();
    let s1 = run_items(s0, recs);
    assert(s1 == rec_state(rs)) by {
        lemma_run_records(rs, rs.len() as int);
        assert(rs.take(rs.len() as int) =~= rs);
    }
    let s2 = run_items(s1, blobs);
    assert(s2 == acc(rs, bs, bs.len() as int)) by {
        assert(acc(rs, bs, 0) == rec_state(rs)) by {
            assert(bs.take(0) =~= Seq::<(Seq<u8>, Seq<u8>)>::empty());
            assert(blob_ids(bs.take(0)) =~= Seq::<Seq<u8>>::empty());
        }
        assert(bs.skip(0) =~= bs);
        lemma_run_blobs(rs, bs, 0);
    }
    lemma_end_step(rs, bs);
    lemma_run_concat(import_init(), hdr, recs);
    lemma_run_concat(import_init(), hdr + recs, blobs);
    lemma_run_concat(import_init(), hdr + recs + blobs, end);
}

/// Bundle round trip: what an export writes, for signed records the
/// import takes back with distinct ids and blobs that match their
/// distinct ids, imports as exactly those records and blobs, in the
/// same order, with the end marker seen and nothing skipped, unless a
/// blob written as parts follows one whose parts end on a whole chunk
/// (see [`parts_follow_ok`]).
pub proof fn lemma_bundle_round_trip(rs: Seq<RecordModel>, bs: Seq<(Seq<u8>, Seq<u8>)>)
    requires
        records_ok(rs),
        rs.len() <= u64::MAX,
        bs.len() <= u64::MAX,
        blobs_ok(bs),
        blob_sizes_ok(bs),
        parts_follow_ok(bs),
    ensures
        export_spec(rs, bs).1,
        import_spec(export_spec(rs, bs).0) == Ok::<ImportState, crate::error::Error>(imported(rs, bs)),
{
    lemma_export_items(rs, bs);
    let items = bundle_items(rs, bs);
    let b = MAGIC@ + enc_list(items);
    lemma_items_shape(rs, bs);
    assert(prefix_at(enc_list(items), b, 5)) by {
        assert(b.subrange(5, 5 + enc_list(items).len() as int) =~= enc_list(items));
    }
    lemma_import_items(b, 5, import_init(), items);
    assert(b.subrange(0, 5) =~= MAGIC@);
    lemma_run_bundle(rs, bs);
    assert(import_from(b, b.len() as int, imported(rs, bs)) == imported(rs, bs));
}

// ---------------------------------------------------------------------
// What every import delivers
// ---------------------------------------------------------------------

/// What an import has delivered so far is sound: each record's
/// signature verifies and each blob hashes to its 32-byte id, the ids
/// of each are distinct and listed in delivery order, and a pending
/// blob has a 32-byte id.
pub open spec fn import_valid(st: ImportState) -> bool {
    &&& st.seen_records.len() == st.records.len()
    &&& forall|i: int| 0 <= i < st.records.len() ==> st.seen_records[i] == spec_record_id(#[trigger] st.records[i])
        && sig_valid(st.records[i])
    &&& forall|i: int, j: int| 0 <= i < j < st.seen_records.len() ==> #[trigger] st.seen_records[i] != #[trigger] st.seen_records[j]
    &&& st.seen_blobs.len() == st.blobs.len()
    &&& forall|i: int| 0 <= i < st.blobs.len() ==> st.seen_blobs[i] == (#[trigger] st.blobs[i]).0 && st.blobs[i].0.len()
        == 32 && blake3_digest(st.blobs[i].1) == st.blobs[i].0
    &&& forall|i: int, j: int| 0 <= i < j < st.seen_blobs.len() ==> #[trigger] st.seen_blobs[i] != #[trigger] st.seen_blobs[j]
    &&& st.pending matches Some((id, _, _)) ==> id.len() == 32
}

proof fn lemma_deliver_valid(st: ImportState, id: Seq<u8>, c: Seq<u8>)
    requires
        import_valid(st),
        id.len() == 32,
        blake3_digest(c) == id,
    ensures
        import_valid(deliver_blob(st, id, c)),
{
    if !st.seen_blobs.contains(id) {
        let n = deliver_blob(st, id, c);
        assert forall|i: int, j: int| 0 <= i < j < n.seen_blobs.len() implies #[trigger] n.seen_blobs[i]
            != #[trigger] n.seen_blobs[j] by {
            if j == st.seen_blobs.len() {
                assert(n.seen_blobs[i] == st.seen_blobs[i]);
            }
        }
        assert forall|i: int| 0 <= i < n.blobs.len() implies n.seen_blobs[i] == (#[trigger] n.blobs[i]).0
            && n.blobs[i].0.len() == 32 && blake3_digest(n.blobs[i].1) == n.blobs[i].0 by {
            if i < st.blobs.len() {
                assert(n.blobs[i] == st.blobs[i]);
            }
        }
    }
}

proof fn lemma_flush_valid(st: ImportState)
    requires
        import_valid(st),
    ensures
        import_valid(flush(st)),
{
    if let Some((id, _, content)) = st.pending {
        let cleared = ImportState { pending: None, ..st };
        if blake3_digest(content) == id {
            lemma_deliver_valid(cleared, id, content);
        }
    }
}

proof fn lemma_record_valid(st: ImportState, arr: Seq<Model>)
    requires
        import_valid(st),
    ensures
        import_valid(on_record(st, arr)),
{
    let f = flush(st);
    lemma_flush_valid(st);
    if let Some(b) = arr_bytes(arr, 1) {
        if let Some(r) = record_of_bytes(b) {
            if sig_valid(r) && !f.seen_records.contains(spec_record_id(r)) {
                let n = on_record(st, arr);
                assert forall|i: int, j: int| 0 <= i < j < n.seen_records.len() implies #[trigger] n.seen_records[i]
                    != #[trigger] n.seen_records[j] by {
                    if j == f.seen_records.len() {
                        assert(n.seen_records[i] == f.seen_records[i]);
                    }
                }
                assert forall|i: int| 0 <= i < n.records.len() implies n.seen_records[i] == spec_record_id(
                    #[trigger] n.records[i],
                ) && sig_valid(n.records[i]) by {
                    if i < f.records.len() {
                        assert(n.records[i] == f.records[i]);
                    }
                }
            }
        }
    }
}

proof fn lemma_part_valid(st: ImportState, arr: Seq<Model>)
    requires
        import_valid(st),
    ensures
        import_valid(on_part(st, arr)),
{
    if let (Some(id), Some(index), Some(part)) = (arr_bytes(arr, 1), arr_uint(arr, 2), arr_bytes(arr, 3)) {
        if id.len() == 32 {
            match st.pending {
                Some((cur, next, content)) => {
                    if cur == id && next == index {
                        let st2 = ImportState { pending: Some((cur, next + 1, content + part)), ..st };
                        lemma_flush_valid(st2);
                    } else if index == 0 {
                        lemma_flush_valid(st);
                        let st3 = ImportState { pending: Some((id, 1, part)), ..flush(st) };
                        lemma_flush_valid(st3);
                    } else {
                        lemma_flush_valid(skip(st, said("non-contiguous blob part; dropping pending blob")));
                    }
                },
                None => {
                    let st3 = ImportState { pending: Some((id, 1, part)), ..st };
                    lemma_flush_valid(st3);
                },
            }
        }
    }
}

proof fn lemma_step_valid(st: ImportState, item: Seq<u8>)
    requires
        import_valid(st),
    ensures
        import_valid(step(st, item)),
{
    if !st.ended {
        if let Some(Model::Array(arr)) = decode_item(item) {
            let s0 = if st.first {
                skip(ImportState { first: false, ..st }, said("first item is not hdr"))
            } else {
                st
            };
            lemma_flush_valid(s0);
            lemma_record_valid(s0, arr);
            lemma_part_valid(s0, arr);
            if let (Some(id), Some(c)) = (arr_bytes(arr, 1), arr_bytes(arr, 2)) {
                if id.len() == 32 && blake3_digest(c) == id {
                    lemma_deliver_valid(flush(s0), id, c);
                }
            }
        }
    }
}

proof fn lemma_import_from_valid(b: Seq<u8>, pos: int, st: ImportState)
    requires
        import_valid(st),
    ensures
        import_valid(import_from(b, pos, st)),
    decreases b.len() - pos,
{
    match read_item_at(b, pos) {
        Some(Some(e)) => if pos < e <= b.len() {
            lemma_step_valid(st, b.subrange(pos, e));
            lemma_import_from_valid(b, e, step(st, b.subrange(pos, e)));
        },
        _ => {},
    }
}

/// Whatever bytes are imported, every record delivered carries a valid
/// signature, every blob delivered hashes to its 32-byte id, and no
/// record or blob is delivered twice.
pub proof fn lemma_import_valid(b: Seq<u8>)
    ensures
        import_spec(b) matches Ok(st) ==> import_valid(st),
{
    if b.len() >= 5 && b.subrange(0, 5) == MAGIC@ {
        lemma_import_from_valid(b, 5, import_init());
        lemma_flush_valid(import_from(b, 5, import_init()));
    }
}

} // verus!
