//! The `/sync` wire frames and their codec.
//!
//! Frames are binary WebSocket messages: one canonically-encoded CBOR
//! array whose first element is a text tag. This module has a small,
//! self-contained, canonical-only CBOR reader/writer for exactly the
//! shapes frames need: unsigned ints, byte strings, text strings,
//! booleans, null, arrays, and maps (definite lengths only).
//!
//! The decoder enforces shortest-form heads, definite lengths, no
//! floats, no tags, no negative integers and strictly sorted map keys,
//! so that a frame has exactly one valid encoding. It never panics on
//! untrusted input and never allocates more than the input could hold.

use vstd::prelude::*;
use vstd::utf8::*;
use vstd::slice::{slice_subrange, slice_to_vec};
use crate::codec::{Model, head, enc, enc_list, enc_entries, write_head, pair_view, flat_pairs, enc_pair, enc_pair_fn, bytes_pair_fn, lemma_flat_pairs_enc_entries};
use crate::cbor_lemmas::{prefix_at, sized, head_len, head_low, lemma_head_shape, lemma_head_unique, major_of, arg_of, body_of, lemma_enc_shape, lemma_enc_list_front, lemma_enc_entries_front, lemma_enc_list_split, lemma_enc_entries_split, lemma_prefix_split, lemma_enc_unique, cut_at, lemma_cut_split};
use crate::decode::{keys_ascending, read_u8, read_head_arg, ArgFail, lemma_split_byte, lemma_target_major, lemma_enc_list_len, lemma_enc_entries_len, lemma_first_byte, lemma_prefix_concat, lemma_cut_head};
use crate::order::{lex_lt, bytes_lt, lemma_lex_transitive, sort_by_key, payloads, key_view, map_payload, sort_entries, lemma_sort_map_payload};
use crate::text::{string_bytes, bytes_to_vec, extend_bytes, string_from_utf8, str_eq, concat, str_debug, str_debug_text};
use crate::filter::{Filter, FilterModel, filter_of, filter_entries, bytes_models, hash_seqs};

verus! {

/// Everything that can go wrong decoding a frame or the CBOR beneath it.
#[derive(Debug, Clone, PartialEq, Eq)]
pub enum FrameError {
    /// Ran out of bytes before a value was complete.
    Truncated,
    /// Extra bytes remained after decoding one complete value.
    TrailingBytes,
    /// A length or integer head used more bytes than the shortest
    /// possible encoding, or map keys were out of order.
    NonCanonical(&'static str),
    /// A CBOR major type appeared where a different one was required.
    UnexpectedType(&'static str),
    /// A well-formed but unsupported CBOR construct (indefinite length,
    /// tag, float, negative integer, ...): frames never use these.
    Unsupported(&'static str),
    /// Bytes were not valid UTF-8 where text was required.
    Utf8,
    /// The decoded value tree does not have the shape a frame requires.
    BadShape(&'static str),
    /// The frame's first element is a text tag this relay does not
    /// recognize.
    UnknownFrameTag(String),
}

/// The text of a frame error whose detail is fixed text.
pub open spec fn frame_error_text(e: FrameError) -> Seq<char> {
    match e {
        FrameError::Truncated => "truncated frame"@,
        FrameError::TrailingBytes => "trailing bytes after frame"@,
        FrameError::NonCanonical(m) => "non-canonical CBOR: "@ + m@,
        FrameError::UnexpectedType(m) => "unexpected CBOR type: "@ + m@,
        FrameError::Unsupported(m) => "unsupported CBOR construct: "@ + m@,
        FrameError::Utf8 => "invalid UTF-8 text"@,
        FrameError::BadShape(m) => "malformed frame: "@ + m@,
        FrameError::UnknownFrameTag(_) => "unknown frame tag "@,
    }
}

impl FrameError {
    /// A human-readable description. For an unknown tag, the tag follows
    /// the lead-in, quoted and escaped as Rust's `Debug` does.
    pub fn message(&self) -> (s: String)
        ensures
            !(*self is UnknownFrameTag) ==> s@ == frame_error_text(*self),
            *self matches FrameError::UnknownFrameTag(t) ==> s@ == frame_error_text(*self) + str_debug_text(t@),
    {
        proof {
            reveal_strlit("truncated frame");
            reveal_strlit("trailing bytes after frame");
            reveal_strlit("non-canonical CBOR: ");
            reveal_strlit("unexpected CBOR type: ");
            reveal_strlit("unsupported CBOR construct: ");
            reveal_strlit("invalid UTF-8 text");
            reveal_strlit("malformed frame: ");
            reveal_strlit("unknown frame tag ");
            reveal_strlit("");
        }
        let r = match self {
            FrameError::Truncated => concat("truncated frame", ""),
            FrameError::TrailingBytes => concat("trailing bytes after frame", ""),
            FrameError::NonCanonical(m) => concat("non-canonical CBOR: ", m),
            FrameError::UnexpectedType(m) => concat("unexpected CBOR type: ", m),
            FrameError::Unsupported(m) => concat("unsupported CBOR construct: ", m),
            FrameError::Utf8 => concat("invalid UTF-8 text", ""),
            FrameError::BadShape(m) => concat("malformed frame: ", m),
            FrameError::UnknownFrameTag(t) => {
                let q = str_debug(t.as_str());
                concat("unknown frame tag ", q.as_str())
            },
        };
        proof {
            assert("truncated frame"@ + ""@ =~= "truncated frame"@);
            assert("trailing bytes after frame"@ + ""@ =~= "trailing bytes after frame"@);
            assert("invalid UTF-8 text"@ + ""@ =~= "invalid UTF-8 text"@);
        }
        r
    }
}

/// A decoded CBOR value, restricted to the shapes frames use.
#[derive(Debug, PartialEq)]
pub enum Value {
    Uint(u64),
    Bytes(Vec<u8>),
    Text(String),
    Bool(bool),
    Null,
    Array(Vec<Value>),
    /// Key-value pairs; sorted by encoded key when encoded, may be given
    /// in any order when constructed for encoding.
    Dict(Vec<(Value, Value)>),
}

/// The model of a frame value (frame values have no negative integers).
pub open spec fn fmodel(v: Value) -> Model
    decreases v,
{
    match v {
        Value::Uint(n) => Model::Uint(n),
        Value::Bytes(b) => Model::Bytes(b@),
        Value::Text(s) => Model::Text(s@),
        Value::Bool(b) => Model::Bool(b),
        Value::Null => Model::Null,
        Value::Array(items) => Model::Array(fmodel_list(items@)),
        Value::Dict(entries) => Model::Dict(fmodel_entries(entries@)),
    }
}

/// The models of a list of frame values.
pub open spec fn fmodel_list(s: Seq<Value>) -> Seq<Model>
    decreases s,
{
    if s.len() == 0 {
        Seq::empty()
    } else {
        fmodel_list(s.drop_last()).push(fmodel(s.last()))
    }
}

/// The models of a list of frame map entries.
pub open spec fn fmodel_entries(s: Seq<(Value, Value)>) -> Seq<(Model, Model)>
    decreases s,
{
    if s.len() == 0 {
        Seq::empty()
    } else {
        fmodel_entries(s.drop_last()).push((fmodel(s.last().0), fmodel(s.last().1)))
    }
}

impl View for Value {
    type V = Model;

    open spec fn view(&self) -> Model {
        fmodel(*self)
    }
}

pub proof fn lemma_fmodel_list(s: Seq<Value>)
    ensures
        fmodel_list(s).len() == s.len(),
        forall|j: int| 0 <= j < s.len() ==> #[trigger] fmodel_list(s)[j] == fmodel(s[j]),
    decreases s.len(),
{
    if s.len() > 0 {
        lemma_fmodel_list(s.drop_last());
    }
}

pub proof fn lemma_fmodel_entries(s: Seq<(Value, Value)>)
    ensures
        fmodel_entries(s).len() == s.len(),
        forall|j: int|
            0 <= j < s.len() ==> #[trigger] fmodel_entries(s)[j] == (fmodel(s[j].0), fmodel(s[j].1)),
    decreases s.len(),
{
    if s.len() > 0 {
        lemma_fmodel_entries(s.drop_last());
    }
}

/// The canonical form of a frame model: every map's entries sorted
/// (stably) by the bytewise order of their keys' canonical encodings.
pub open spec fn fcanon(m: Model) -> Model
    decreases m,
{
    match m {
        Model::Array(items) => Model::Array(fcanon_list(items)),
        Model::Dict(es) => Model::Dict(payloads(sort_by_key(fcanon_keyed(es)))),
        _ => m,
    }
}

pub open spec fn fcanon_list(s: Seq<Model>) -> Seq<Model>
    decreases s,
{
    if s.len() == 0 {
        Seq::empty()
    } else {
        fcanon_list(s.drop_last()).push(fcanon(s.last()))
    }
}

pub open spec fn fcanon_keyed(s: Seq<(Model, Model)>) -> Seq<(Seq<u8>, (Model, Model))>
    decreases s,
{
    if s.len() == 0 {
        Seq::empty()
    } else {
        let k = s.last().0;
        fcanon_keyed(s.drop_last()).push((enc(fcanon(k)), (fcanon(k), fcanon(s.last().1))))
    }
}

/// The bytes the frame encoder writes for a model.
pub open spec fn fenc(m: Model) -> Seq<u8> {
    enc(fcanon(m))
}

impl Value {
    /// A deep copy.
    pub fn deep_clone(&self) -> (r: Value)
        ensures
            r@ == self@,
        decreases self,
    {
        match self {
            Value::Uint(n) => Value::Uint(*n),
            Value::Bytes(b) => Value::Bytes(b.clone()),
            Value::Text(s) => Value::Text(s.clone()),
            Value::Bool(b) => Value::Bool(*b),
            Value::Null => Value::Null,
            Value::Array(items) => {
                let mut out: Vec<Value> = Vec::new();
                let mut i: usize = 0;
                while i < items.len()
                    invariant
                        i <= items.len(),
                        fmodel_list(out@) == fmodel_list(items@.subrange(0, i as int)),
                        forall|k: int| 0 <= k < items.len() ==> decreases_to!(*self => #[trigger] items@[k]),
                    decreases items.len() - i,
                {
                    let c = items[i].deep_clone();
                    proof {
                        let t = items@.subrange(0, i + 1);
                        assert(t.drop_last() =~= items@.subrange(0, i as int));
                        assert(out@.push(c).drop_last() =~= out@);
                    }
                    out.push(c);
                    i = i + 1;
                }
                assert(items@.subrange(0, items.len() as int) =~= items@);
                Value::Array(out)
            },
            Value::Dict(entries) => {
                let mut out: Vec<(Value, Value)> = Vec::new();
                let mut i: usize = 0;
                while i < entries.len()
                    invariant
                        i <= entries.len(),
                        fmodel_entries(out@) == fmodel_entries(entries@.subrange(0, i as int)),
                        forall|k: int| 0 <= k < entries.len() ==> decreases_to!(*self => #[trigger] entries@[k].0),
                        forall|k: int| 0 <= k < entries.len() ==> decreases_to!(*self => #[trigger] entries@[k].1),
                    decreases entries.len() - i,
                {
                    let k = entries[i].0.deep_clone();
                    let v = entries[i].1.deep_clone();
                    proof {
                        let t = entries@.subrange(0, i + 1);
                        assert(t.drop_last() =~= entries@.subrange(0, i as int));
                        assert(out@.push((k, v)).drop_last() =~= out@);
                    }
                    out.push((k, v));
                    i = i + 1;
                }
                assert(entries@.subrange(0, entries.len() as int) =~= entries@);
                Value::Dict(out)
            },
        }
    }

    /// This value as an unsigned integer, if it is one.
    pub fn as_uint(&self) -> (r: Option<u64>)
        ensures
            r == (match self@ {
                Model::Uint(n) => Some(n),
                _ => None::<u64>,
            }),
    {
        match self {
            Value::Uint(v) => Some(*v),
            _ => None,
        }
    }

    /// This value's bytes, if it is a byte string.
    pub fn as_bytes(&self) -> (r: Option<&[u8]>)
        ensures
            r is Some <==> self@ is Bytes,
            r matches Some(b) ==> self@ == Model::Bytes(b@),
    {
        match self {
            Value::Bytes(b) => Some(b.as_slice()),
            _ => None,
        }
    }

    /// This value's bytes, if it is a byte string of exactly 32 bytes.
    pub fn as_bytes32(&self) -> (r: Option<[u8; 32]>)
        ensures
            r is Some <==> (self@ is Bytes && self@->Bytes_0.len() == 32),
            r matches Some(b) ==> self@ == Model::Bytes(b@),
    {
        match self {
            Value::Bytes(b) => {
                if b.len() != 32 {
                    return None;
                }
                Some(crate::record::array32(b.as_slice()))
            },
            _ => None,
        }
    }

    /// This value's text, if it is a text string.
    pub fn as_text(&self) -> (r: Option<&str>)
        ensures
            r is Some <==> self@ is Text,
            r matches Some(t) ==> self@ == Model::Text(t@),
    {
        match self {
            Value::Text(s) => Some(s.as_str()),
            _ => None,
        }
    }

    /// This value's elements, if it is an array.
    pub fn as_array(&self) -> (r: Option<&[Value]>)
        ensures
            r is Some <==> self@ is Array,
            r matches Some(a) ==> self@ == Model::Array(fmodel_list(a@)),
    {
        match self {
            Value::Array(items) => Some(items.as_slice()),
            _ => None,
        }
    }

    /// This value's entries, if it is a map.
    pub fn as_map(&self) -> (r: Option<&[(Value, Value)]>)
        ensures
            r is Some <==> self@ is Dict,
            r matches Some(m) ==> self@ == Model::Dict(fmodel_entries(m@)),
    {
        match self {
            Value::Dict(pairs) => Some(pairs.as_slice()),
            _ => None,
        }
    }
}

impl Clone for Value {
    fn clone(&self) -> (r: Value)
        ensures
            r@ == self@,
    {
        self.deep_clone()
    }
}

// -- encoding ------------------------------------------------------------

/// Append a CBOR head in shortest form.
pub fn encode_head(buf: &mut Vec<u8>, major: u8, value: u64)
    requires
        major < 8,
    ensures
        final(buf)@ == old(buf)@ + head(major, value),
{
    write_head(buf, major, value);
}

/// Append the canonical encoding of `v`: map entries sorted by their
/// encoded keys.
#[verifier::loop_isolation(false)]
pub fn encode_value(buf: &mut Vec<u8>, v: &Value)
    ensures
        final(buf)@ == old(buf)@ + fenc(v@),
    decreases v,
{
    match v {
        Value::Uint(x) => encode_head(buf, 0, *x),
        Value::Bytes(b) => {
            encode_head(buf, 2, b.len() as u64);
            extend_bytes(buf, b.as_slice());
            assert(final(buf)@ =~= old(buf)@ + fenc(v@));
        },
        Value::Text(s) => {
            let bytes = string_bytes(s);
            encode_head(buf, 3, bytes.len() as u64);
            extend_bytes(buf, bytes);
            assert(final(buf)@ =~= old(buf)@ + fenc(v@));
        },
        Value::Bool(b) => {
            buf.push(if *b { 0xf5 } else { 0xf4 });
            assert(final(buf)@ =~= old(buf)@ + fenc(v@));
        },
        Value::Null => {
            buf.push(0xf6);
            assert(final(buf)@ =~= old(buf)@ + fenc(v@));
        },
        Value::Array(items) => {
            proof {
                assert(decreases_to!(*v => *items));
            }
            encode_items(buf, items);
        },
        Value::Dict(pairs) => {
            proof {
                assert(decreases_to!(*v => *pairs));
            }
            let keyed = encode_pairs(pairs);
            write_sorted_map(buf, keyed, Ghost(fmodel_entries(pairs@)));
        },
    }
}

#[verifier::loop_isolation(false)]
fn encode_items(buf: &mut Vec<u8>, items: &Vec<Value>)
    ensures
        final(buf)@ == old(buf)@ + fenc(Model::Array(fmodel_list(items@))),
    decreases items,
{
    proof {
        lemma_fmodel_list(items@);
    }
    encode_head(buf, 4, items.len() as u64);
    let ghost base = buf@;
    let mut i: usize = 0;
    while i < items.len()
        invariant
            i <= items.len(),
            buf@ == base + enc_list(fcanon_list(fmodel_list(items@.take(i as int)))),
        decreases items.len() - i,
    {
        proof {
            assert(decreases_to!(*items => items@[i as int]));
        }
        encode_value(buf, &items[i]);
        proof {
            let t = items@.take(i + 1);
            assert(t.drop_last() =~= items@.take(i as int));
            let ml = fmodel_list(t);
            assert(ml.drop_last() == fmodel_list(items@.take(i as int)));
            assert(fcanon_list(ml).drop_last() =~= fcanon_list(fmodel_list(items@.take(i as int))));
        }
        i = i + 1;
    }
    proof {
        assert(items@.take(items.len() as int) =~= items@);
        lemma_fcanon_list_len(fmodel_list(items@));
    }
    assert(final(buf)@ =~= old(buf)@ + fenc(Model::Array(fmodel_list(items@))));
}

proof fn lemma_fcanon_list_len(s: Seq<Model>)
    ensures
        fcanon_list(s).len() == s.len(),
    decreases s.len(),
{
    if s.len() > 0 {
        lemma_fcanon_list_len(s.drop_last());
    }
}

proof fn lemma_fcanon_keyed_len(s: Seq<(Model, Model)>)
    ensures
        fcanon_keyed(s).len() == s.len(),
    decreases s.len(),
{
    if s.len() > 0 {
        lemma_fcanon_keyed_len(s.drop_last());
    }
}

/// Encode every key and value of a map, keeping entry order; each entry
/// is keyed by a copy of its key bytes.
#[verifier::loop_isolation(false)]
fn encode_pairs(entries: &Vec<(Value, Value)>) -> (pairs: Vec<(Vec<u8>, (Vec<u8>, Vec<u8>))>)
    ensures
        pair_view(pairs@) == map_payload(fcanon_keyed(fmodel_entries(entries@)), enc_pair_fn()),
    decreases entries,
{
    let mut pairs: Vec<(Vec<u8>, (Vec<u8>, Vec<u8>))> = Vec::new();
    let mut i: usize = 0;
    while i < entries.len()
        invariant
            i <= entries.len(),
            pair_view(pairs@) == map_payload(
                fcanon_keyed(fmodel_entries(entries@.take(i as int))),
                enc_pair_fn(),
            ),
        decreases entries.len() - i,
    {
        proof {
            assert(decreases_to!(*entries => entries@[i as int].0));
            assert(decreases_to!(*entries => entries@[i as int].1));
        }
        let mut kbuf: Vec<u8> = Vec::new();
        encode_value(&mut kbuf, &entries[i].0);
        let mut vbuf: Vec<u8> = Vec::new();
        encode_value(&mut vbuf, &entries[i].1);
        let kcopy = bytes_to_vec(kbuf.as_slice());
        let ghost old_pairs = pairs@;
        pairs.push((kcopy, (kbuf, vbuf)));
        proof {
            let t = entries@.take(i + 1);
            assert(t.drop_last() =~= entries@.take(i as int));
            assert(t.last() == entries@[i as int]);
            let me = fmodel_entries(t);
            assert(me.drop_last() == fmodel_entries(entries@.take(i as int)));
            let ck = fcanon_keyed(me);
            assert(ck.drop_last() == fcanon_keyed(fmodel_entries(entries@.take(i as int))));
            assert(pair_view(pairs@) =~= pair_view(old_pairs).push((kbuf@, (kbuf@, vbuf@))));
            assert(map_payload(ck, enc_pair_fn()) =~= map_payload(ck.drop_last(), enc_pair_fn()).push(
                (ck.last().0, enc_pair(ck.last().1)),
            ));
        }
        i = i + 1;
    }
    proof {
        assert(entries@.take(entries.len() as int) =~= entries@);
    }
    pairs
}

/// Append a map: its entries' encoded byte pairs sorted by key bytes.
fn write_sorted_map(
    buf: &mut Vec<u8>,
    pairs: Vec<(Vec<u8>, (Vec<u8>, Vec<u8>))>,
    Ghost(es): Ghost<Seq<(Model, Model)>>,
)
    requires
        pair_view(pairs@) == map_payload(fcanon_keyed(es), enc_pair_fn()),
    ensures
        final(buf)@ == old(buf)@ + fenc(Model::Dict(es)),
{
    let ghost f = enc_pair_fn();
    let ghost kv = key_view(pairs@);
    let sorted = sort_entries(pairs);
    let ghost bv = bytes_pair_fn();
    let ghost s_sorted = sort_by_key(fcanon_keyed(es));
    proof {
        assert(pair_view(pairs@) =~= map_payload(kv, bv));
        assert(pair_view(sorted@) =~= map_payload(key_view(sorted@), bv));
        lemma_sort_map_payload(kv, bv);
        lemma_sort_map_payload(fcanon_keyed(es), f);
        crate::order::lemma_sort_sorted(fcanon_keyed(es));
        assert(pair_view(sorted@) == map_payload(s_sorted, f));
        lemma_fcanon_keyed_len(es);
    }
    encode_head(buf, 5, sorted.len() as u64);
    let ghost base = buf@;
    let mut k: usize = 0;
    while k < sorted.len()
        invariant
            k <= sorted.len(),
            buf@ == base + flat_pairs(pair_view(sorted@).take(k as int)),
        decreases sorted.len() - k,
    {
        extend_bytes(buf, sorted[k].1.0.as_slice());
        extend_bytes(buf, sorted[k].1.1.as_slice());
        proof {
            let t = pair_view(sorted@).take(k + 1);
            assert(t.drop_last() =~= pair_view(sorted@).take(k as int));
        }
        k = k + 1;
    }
    proof {
        assert(pair_view(sorted@).take(sorted.len() as int) =~= pair_view(sorted@));
        lemma_flat_pairs_enc_entries(s_sorted);
        assert(payloads(s_sorted).len() == s_sorted.len());
    }
    assert(final(buf)@ =~= old(buf)@ + fenc(Model::Dict(es)));
}

/// The canonical encoding of a value, as a new vector.
pub fn encode_value_to_vec(v: &Value) -> (b: Vec<u8>)
    ensures
        b@ == fenc(v@),
{
    let mut buf: Vec<u8> = Vec::new();
    encode_value(&mut buf, v);
    assert(buf@ =~= fenc(v@));
    buf
}

// -- decoding --------------------------------------------------------------

/// A model the frame decoder accepts: no negative integers, map keys in
/// strictly ascending order of their encodings, 64-bit lengths.
pub open spec fn fdecodable(m: Model) -> bool
    decreases m,
{
    match m {
        Model::Nint(_) => false,
        Model::Bytes(b) => b.len() <= u64::MAX,
        Model::Text(t) => encode_utf8(t).len() <= u64::MAX,
        Model::Array(items) => items.len() <= u64::MAX && forall|i: int|
            0 <= i < items.len() ==> fdecodable(#[trigger] items[i]),
        Model::Dict(es) => es.len() <= u64::MAX && keys_ascending(es) && forall|i: int|
            0 <= i < es.len() ==> fdecodable(#[trigger] es[i].0) && fdecodable(es[i].1),
        _ => true,
    }
}

/// Some frame-decodable model's encoding starts at `i`.
pub open spec fn fdecodable_at(s: Seq<u8>, i: int) -> bool {
    exists|m: Model| fdecodable(m) && #[trigger] prefix_at(enc(m), s, i)
}

/// The input from `i` on is a proper beginning of some frame-decodable
/// model's encoding: it ends inside that value.
pub open spec fn fcut_at(s: Seq<u8>, i: int) -> bool {
    exists|m: Model| fdecodable(m) && #[trigger] cut_at(enc(m), s, i)
}

/// What a successful frame parse from `i` to `j` promises.
pub open spec fn fparsed(res: Result<Value, FrameError>, s: Seq<u8>, i: int, j: int) -> bool {
    res matches Ok(v) ==> fdecodable(v@) && prefix_at(enc(v@), s, i) && j == i + enc(v@).len()
}

pub proof fn lemma_fdecodable_sized(m: Model)
    requires
        fdecodable(m),
    ensures
        sized(m),
    decreases m,
{
    match m {
        Model::Array(items) => {
            assert forall|i: int| 0 <= i < items.len() implies sized(#[trigger] items[i]) by {
                lemma_fdecodable_sized(items[i]);
            }
        },
        Model::Dict(es) => {
            assert forall|i: int| 0 <= i < es.len() implies sized(#[trigger] es[i].0) && sized(
                es[i].1,
            ) by {
                lemma_fdecodable_sized(es[i].0);
                lemma_fdecodable_sized(es[i].1);
            }
        },
        _ => {},
    }
}

pub proof fn lemma_flist_push(items: Seq<Value>, v: Value)
    ensures
        fmodel_list(items.push(v)) == fmodel_list(items).push(v@),
        enc_list(fmodel_list(items.push(v))) == enc_list(fmodel_list(items)) + enc(v@),
{
    assert(items.push(v).drop_last() =~= items);
    assert(fmodel_list(items).push(v@).drop_last() =~= fmodel_list(items));
}

pub proof fn lemma_fentries_push(es: Seq<(Value, Value)>, k: Value, v: Value)
    ensures
        fmodel_entries(es.push((k, v))) == fmodel_entries(es).push((k@, v@)),
        enc_entries(fmodel_entries(es.push((k, v)))) == enc_entries(fmodel_entries(es)) + enc(k@)
            + enc(v@),
{
    assert(es.push((k, v)).drop_last() =~= es);
    assert(fmodel_entries(es).push((k@, v@)).drop_last() =~= fmodel_entries(es));
}

/// Read a head's argument, with the frame decoder's error for each
/// failure.
fn fread_arg(bytes: &[u8], pos: &mut usize, major: u8, low: u8) -> (res: Result<u64, FrameError>)
    requires
        1 <= *old(pos) <= bytes.len(),
        major < 8,
        low < 32,
        bytes@[*old(pos) - 1] == major * 32 + low,
    ensures
        *final(pos) <= bytes.len(),
        res matches Ok(a) ==> prefix_at(head(major, a), bytes@, *old(pos) - 1) && *final(pos)
            == *old(pos) - 1 + head_len(a),
        (exists|a: u64| prefix_at(head(major, a), bytes@, *old(pos) - 1)) ==> res is Ok,
        (exists|a: u64| #![trigger head(major, a)] cut_at(head(major, a), bytes@, *old(pos) - 1)) ==> res
            == Err::<u64, FrameError>(FrameError::Truncated),
{
    match read_head_arg(bytes, pos, major, low) {
        Ok(a) => Ok(a),
        Err(ArgFail::Truncated) => Err(FrameError::Truncated),
        Err(ArgFail::NonShortest(w)) => Err(FrameError::NonCanonical(
            if w == 1 {
                "1-byte length not minimal"
            } else if w == 2 {
                "2-byte length not minimal"
            } else if w == 4 {
                "4-byte length not minimal"
            } else {
                "8-byte length not minimal"
            },
        )),
        Err(ArgFail::Reserved) => Err(FrameError::Unsupported("reserved additional info")),
        Err(ArgFail::Indefinite) => Err(FrameError::Unsupported("indefinite length")),
    }
}

/// Read a length argument and bound it by the bytes that remain.
fn fread_length(bytes: &[u8], pos: &mut usize, major: u8, low: u8) -> (res: Result<usize, FrameError>)
    requires
        1 <= *old(pos) <= bytes.len(),
        major < 8,
        low < 32,
        bytes@[*old(pos) - 1] == major * 32 + low,
    ensures
        *final(pos) <= bytes.len(),
        res matches Ok(n) ==> prefix_at(head(major, n as u64), bytes@, *old(pos) - 1) && *final(pos)
            == *old(pos) - 1 + head_len(n as u64) && n <= bytes.len() - *final(pos),
        (exists|a: u64|
            #![trigger head(major, a)]
            prefix_at(head(major, a), bytes@, *old(pos) - 1) && a <= bytes.len() - (*old(pos) - 1
                + head_len(a))) ==> res is Ok,
        (exists|a: u64| #![trigger head(major, a)] cut_at(head(major, a), bytes@, *old(pos) - 1)) ==> res
            == Err::<usize, FrameError>(FrameError::Truncated),
        (exists|a: u64|
            #![trigger head(major, a)]
            prefix_at(head(major, a), bytes@, *old(pos) - 1) && a > bytes.len() - (*old(pos) - 1
                + head_len(a))) ==> res == Err::<usize, FrameError>(FrameError::Truncated),
{
    let ghost p0 = *old(pos) - 1;
    let n = match fread_arg(bytes, pos, major, low) {
        Ok(n) => n,
        Err(e) => {
            return Err(e);
        },
    };
    proof {
        assert forall|a: u64|
            #![trigger head(major, a)]
            prefix_at(head(major, a), bytes@, p0) implies a == n by {
            lemma_head_unique(major, a, major, n, bytes@, p0);
        }
    }
    let remaining = bytes.len() - *pos;
    if n > remaining as u64 {
        return Err(FrameError::Truncated);
    }
    Ok(n as usize)
}

/// Parse a byte or text string (majors 2 and 3).
fn fparse_string(bytes: &[u8], pos: &mut usize, major: u8, low: u8) -> (res: Result<Value, FrameError>)
    requires
        1 <= *old(pos) <= bytes.len(),
        2 <= major <= 3,
        low < 32,
        bytes@[*old(pos) - 1] == major * 32 + low,
    ensures
        *final(pos) <= bytes.len(),
        fparsed(res, bytes@, *old(pos) - 1, *final(pos) as int),
        fdecodable_at(bytes@, *old(pos) - 1) ==> res is Ok,
        fcut_at(bytes@, *old(pos) - 1) ==> res == Err::<Value, FrameError>(FrameError::Truncated),
{
    let ghost p0 = *old(pos) - 1;
    let ghost s = bytes@;
    let ghost ok = fdecodable_at(s, p0);
    let ghost tm = choose|m: Model| fdecodable(m) && prefix_at(enc(m), s, p0);
    let ghost cut = fcut_at(s, p0);
    let ghost cm = choose|m: Model| fdecodable(m) && cut_at(enc(m), s, p0);
    proof {
        if ok {
            lemma_target_major(tm, s, p0, major, low);
            lemma_head_shape(major, arg_of(tm));
            assert(head(major, arg_of(tm)) == head(major, arg_of(tm)));
        }
        if cut {
            lemma_cut_head(cm, s, p0, major, low);
            lemma_head_shape(major, arg_of(cm));
            assert(body_of(cm).len() == arg_of(cm));
            assert(head(major, arg_of(cm)) == head(major, arg_of(cm)));
        }
    }
    let n = match fread_length(bytes, pos, major, low) {
        Ok(n) => n,
        Err(e) => {
            return Err(e);
        },
    };
    let start = *pos;
    let data = slice_to_vec(slice_subrange(bytes, start, start + n));
    *pos = start + n;
    proof {
        if ok {
            lemma_head_unique(major, arg_of(tm), major, n as u64, s, p0);
        }
        assert(prefix_at(data@, s, start as int));
    }
    if major == 2 {
        let v = Value::Bytes(data);
        proof {
            lemma_prefix_concat(head(2, n as u64), data@, s, p0);
        }
        Ok(v)
    } else {
        match string_from_utf8(data) {
            Some(t) => {
                proof {
                    decode_utf8_encode_utf8(data@);
                    lemma_prefix_concat(head(3, n as u64), data@, s, p0);
                }
                Ok(Value::Text(t))
            },
            None => {
                proof {
                    if ok {
                        encode_utf8_valid_utf8(tm->Text_0);
                        assert(data@ =~= encode_utf8(tm->Text_0));
                    }
                }
                Err(FrameError::Utf8)
            },
        }
    }
}

/// Parse an array whose head's first byte (at `*pos - 1`) was just
/// consumed.
#[verifier::spinoff_prover]
#[verifier::rlimit(30)]
fn fparse_array(bytes: &[u8], pos: &mut usize, low: u8) -> (res: Result<Value, FrameError>)
    requires
        1 <= *old(pos) <= bytes.len(),
        low < 32,
        bytes@[*old(pos) - 1] == 4 * 32 + low,
    ensures
        *final(pos) <= bytes.len(),
        fparsed(res, bytes@, *old(pos) - 1, *final(pos) as int),
        fdecodable_at(bytes@, *old(pos) - 1) ==> res is Ok,
        fcut_at(bytes@, *old(pos) - 1) ==> res == Err::<Value, FrameError>(FrameError::Truncated),
    decreases bytes.len() - (*old(pos) - 1), 0int,
{
    let ghost p0 = *old(pos) - 1;
    let ghost s = bytes@;
    let ghost ok = fdecodable_at(s, p0);
    let ghost tm = choose|m: Model| fdecodable(m) && prefix_at(enc(m), s, p0);
    let ghost ms = tm->Array_0;
    let ghost cut = fcut_at(s, p0);
    let ghost cm = choose|m: Model| fdecodable(m) && cut_at(enc(m), s, p0);
    let ghost cms = cm->Array_0;
    proof {
        if ok {
            lemma_target_major(tm, s, p0, 4, low);
            lemma_head_shape(4, arg_of(tm));
            lemma_enc_list_len(ms);
            assert(head(4u8, arg_of(tm)) == head(4u8, arg_of(tm)));
        }
        if cut {
            lemma_cut_head(cm, s, p0, 4, low);
            lemma_head_shape(4, arg_of(cm));
            lemma_enc_list_len(cms);
            assert(head(4u8, arg_of(cm)) == head(4u8, arg_of(cm)));
        }
    }
    let n = match fread_length(bytes, pos, 4, low) {
        Ok(n) => n,
        Err(e) => {
            return Err(e);
        },
    };
    let ghost p1 = *pos as int;
    proof {
        if ok {
            lemma_head_unique(4, arg_of(tm), 4, n as u64, s, p0);
            assert(ms.take(0) =~= Seq::<Model>::empty());
        }
        if cut {
            lemma_head_unique(4, arg_of(cm), 4, n as u64, s, p0);
            assert(cms.skip(0) =~= cms);
            assert(cms.take(0) =~= Seq::<Model>::empty());
        }
        assert(enc_list(fmodel_list(Seq::<Value>::empty())) =~= Seq::<u8>::empty());
        assert(s.subrange(p1, p1) =~= Seq::<u8>::empty());
    }
    let mut items: Vec<Value> = Vec::new();
    let mut i: usize = 0;
    while i < n
        invariant
            s == bytes@,
            i <= n,
            p0 == *old(pos) - 1,
            p0 < p1,
            ok == fdecodable_at(s, p0),
            items.len() == i,
            p1 <= *pos <= bytes.len(),
            n <= u64::MAX,
            forall|k: int| 0 <= k < i ==> fdecodable(#[trigger] items@[k]@),
            prefix_at(enc_list(fmodel_list(items@)), s, p1),
            *pos == p1 + enc_list(fmodel_list(items@)).len(),
            ok ==> ms.len() == n && fmodel_list(items@) == ms.take(i as int) && prefix_at(
                enc_list(ms),
                s,
                p1,
            ) && (forall|k: int| 0 <= k < ms.len() ==> fdecodable(#[trigger] ms[k])),
            cut == fcut_at(s, p0),
            cut ==> cms.len() == n && fmodel_list(items@) == cms.take(i as int) && cut_at(
                enc_list(cms.skip(i as int)),
                s,
                *pos as int,
            ) && (forall|k: int| 0 <= k < cms.len() ==> fdecodable(#[trigger] cms[k])),
        decreases n - i,
    {
        let ghost q = *pos as int;
        proof {
            if cut {
                lemma_enc_list_front(cms.skip(i as int));
                assert(cms.skip(i as int).drop_first() =~= cms.skip(i + 1));
                assert(cms.skip(i as int)[0] == cms[i as int]);
                lemma_cut_split(enc(cms[i as int]), enc_list(cms.skip(i + 1)), s, q);
                assert(fdecodable(cms[i as int]));
                if prefix_at(enc(cms[i as int]), s, q) {
                    assert(fdecodable_at(s, q));
                } else {
                    assert(fcut_at(s, q));
                }
            }
            if ok {
                lemma_enc_list_split(ms, i as int);
                lemma_prefix_split(enc_list(ms.take(i as int)), enc_list(ms.skip(i as int)), s, p1);
                lemma_enc_list_front(ms.skip(i as int));
                lemma_prefix_split(enc(ms[i as int]), enc_list(ms.skip(i as int).drop_first()), s, q);
                assert(fdecodable(ms[i as int]));
                assert(prefix_at(enc(ms[i as int]), s, q));
            }
        }
        let v = match fparse_value(bytes, pos) {
            Ok(v) => v,
            Err(e) => {
                return Err(e);
            },
        };
        proof {
            lemma_flist_push(items@, v);
            lemma_prefix_concat(enc_list(fmodel_list(items@)), enc(v@), s, p1);
            if ok {
                lemma_fdecodable_sized(v@);
                lemma_fdecodable_sized(ms[i as int]);
                lemma_enc_unique(v@, ms[i as int], s, q);
                assert(ms.take(i + 1) =~= ms.take(i as int).push(ms[i as int]));
            }
            if cut {
                lemma_fdecodable_sized(v@);
                lemma_fdecodable_sized(cms[i as int]);
                lemma_enc_unique(v@, cms[i as int], s, q);
                assert(cms.take(i + 1) =~= cms.take(i as int).push(cms[i as int]));
            }
        }
        items.push(v);
        i = i + 1;
    }
    let ghost ml = fmodel_list(items@);
    proof {
        if cut {
            assert(cms.skip(n as int) =~= Seq::<Model>::empty());
        }
        lemma_fmodel_list(items@);
        assert forall|k: int| 0 <= k < ml.len() implies fdecodable(#[trigger] ml[k]) by {
            assert(ml[k] == items@[k]@);
        }
        lemma_prefix_concat(head(4, n as u64), enc_list(ml), s, p0);
    }
    Ok(Value::Array(items))
}

/// Parse a map whose head's first byte was just consumed; the keys must
/// come in strictly ascending order of their encodings.
#[verifier::spinoff_prover]
#[verifier::rlimit(30)]
fn fparse_map(bytes: &[u8], pos: &mut usize, low: u8) -> (res: Result<Value, FrameError>)
    requires
        1 <= *old(pos) <= bytes.len(),
        low < 32,
        bytes@[*old(pos) - 1] == 5 * 32 + low,
    ensures
        *final(pos) <= bytes.len(),
        fparsed(res, bytes@, *old(pos) - 1, *final(pos) as int),
        fdecodable_at(bytes@, *old(pos) - 1) ==> res is Ok,
        fcut_at(bytes@, *old(pos) - 1) ==> res == Err::<Value, FrameError>(FrameError::Truncated),
    decreases bytes.len() - (*old(pos) - 1), 0int,
{
    let ghost p0 = *old(pos) - 1;
    let ghost s = bytes@;
    let ghost ok = fdecodable_at(s, p0);
    let ghost tm = choose|m: Model| fdecodable(m) && prefix_at(enc(m), s, p0);
    let ghost es = tm->Dict_0;
    let ghost cut = fcut_at(s, p0);
    let ghost cm = choose|m: Model| fdecodable(m) && cut_at(enc(m), s, p0);
    let ghost ces = cm->Dict_0;
    proof {
        if ok {
            lemma_target_major(tm, s, p0, 5, low);
            lemma_head_shape(5, arg_of(tm));
            lemma_enc_entries_len(es);
            assert(head(5u8, arg_of(tm)) == head(5u8, arg_of(tm)));
        }
        if cut {
            lemma_cut_head(cm, s, p0, 5, low);
            lemma_head_shape(5, arg_of(cm));
            lemma_enc_entries_len(ces);
            assert(head(5u8, arg_of(cm)) == head(5u8, arg_of(cm)));
        }
    }
    let n = match fread_length(bytes, pos, 5, low) {
        Ok(n) => n,
        Err(e) => {
            return Err(e);
        },
    };
    let ghost p1 = *pos as int;
    proof {
        if ok {
            lemma_head_unique(5, arg_of(tm), 5, n as u64, s, p0);
            assert(es.take(0) =~= Seq::<(Model, Model)>::empty());
        }
        if cut {
            lemma_head_unique(5, arg_of(cm), 5, n as u64, s, p0);
            assert(ces.skip(0) =~= ces);
            assert(ces.take(0) =~= Seq::<(Model, Model)>::empty());
        }
        assert(enc_entries(fmodel_entries(Seq::<(Value, Value)>::empty())) =~= Seq::<u8>::empty());
        assert(s.subrange(p1, p1) =~= Seq::<u8>::empty());
    }
    let mut entries: Vec<(Value, Value)> = Vec::new();
    let mut prev: Vec<u8> = Vec::new();
    let mut i: usize = 0;
    while i < n
        invariant
            s == bytes@,
            i <= n,
            p0 == *old(pos) - 1,
            p0 < p1,
            ok == fdecodable_at(s, p0),
            entries.len() == i,
            p1 <= *pos <= bytes.len(),
            n <= u64::MAX,
            forall|k: int|
                0 <= k < i ==> fdecodable(#[trigger] entries@[k].0@) && fdecodable(entries@[k].1@),
            keys_ascending(fmodel_entries(entries@)),
            i > 0 ==> prev@ == enc(entries@[i - 1].0@),
            prefix_at(enc_entries(fmodel_entries(entries@)), s, p1),
            *pos == p1 + enc_entries(fmodel_entries(entries@)).len(),
            ok ==> es.len() == n && fmodel_entries(entries@) == es.take(i as int) && prefix_at(
                enc_entries(es),
                s,
                p1,
            ) && keys_ascending(es) && (forall|k: int|
                0 <= k < es.len() ==> fdecodable(#[trigger] es[k].0) && fdecodable(es[k].1)),
            cut == fcut_at(s, p0),
            cut ==> ces.len() == n && fmodel_entries(entries@) == ces.take(i as int) && cut_at(
                enc_entries(ces.skip(i as int)),
                s,
                *pos as int,
            ) && keys_ascending(ces) && (forall|k: int|
                0 <= k < ces.len() ==> fdecodable(#[trigger] ces[k].0) && fdecodable(ces[k].1)),
        decreases n - i,
    {
        let ghost q = *pos as int;
        proof {
            if cut {
                lemma_enc_entries_front(ces.skip(i as int));
                assert(ces.skip(i as int).drop_first() =~= ces.skip(i + 1));
                assert(ces.skip(i as int)[0] == ces[i as int]);
                lemma_cut_split(
                    enc(ces[i as int].0) + enc(ces[i as int].1),
                    enc_entries(ces.skip(i + 1)),
                    s,
                    q,
                );
                assert(fdecodable(ces[i as int].0));
                if prefix_at(enc(ces[i as int].0) + enc(ces[i as int].1), s, q) {
                    lemma_prefix_split(enc(ces[i as int].0), enc(ces[i as int].1), s, q);
                    assert(fdecodable_at(s, q));
                } else {
                    lemma_cut_split(enc(ces[i as int].0), enc(ces[i as int].1), s, q);
                    if prefix_at(enc(ces[i as int].0), s, q) {
                        assert(fdecodable_at(s, q));
                    } else {
                        assert(fcut_at(s, q));
                    }
                }
            }
            if ok {
                lemma_enc_entries_split(es, i as int);
                lemma_prefix_split(
                    enc_entries(es.take(i as int)),
                    enc_entries(es.skip(i as int)),
                    s,
                    p1,
                );
                lemma_enc_entries_front(es.skip(i as int));
                lemma_prefix_split(
                    enc(es[i as int].0) + enc(es[i as int].1),
                    enc_entries(es.skip(i as int).drop_first()),
                    s,
                    q,
                );
                lemma_prefix_split(enc(es[i as int].0), enc(es[i as int].1), s, q);
                assert(fdecodable(es[i as int].0));
            }
        }
        let key_start = *pos;
        let key = match fparse_value(bytes, pos) {
            Ok(k) => k,
            Err(e) => {
                return Err(e);
            },
        };
        let key_end = *pos;
        let key_bytes = slice_subrange(bytes, key_start, key_end);
        let ghost mes = fmodel_entries(entries@);
        let ghost q2 = *pos as int;
        proof {
            assert(key_bytes@ == enc(key@));
            lemma_fmodel_entries(entries@);
            if ok {
                lemma_fdecodable_sized(key@);
                lemma_fdecodable_sized(es[i as int].0);
                lemma_enc_unique(key@, es[i as int].0, s, q);
                if i > 0 {
                    assert(mes[i - 1] == es[i - 1]);
                    assert(lex_lt(enc(es[i - 1].0), enc(es[i as int].0)));
                }
                assert(fdecodable(es[i as int].1));
                assert(prefix_at(enc(es[i as int].1), s, q2));
            }
            if cut {
                lemma_fdecodable_sized(key@);
                lemma_fdecodable_sized(ces[i as int].0);
                lemma_enc_unique(key@, ces[i as int].0, s, q);
                if i > 0 {
                    assert(mes[i - 1] == ces[i - 1]);
                    assert(lex_lt(enc(ces[i - 1].0), enc(ces[i as int].0)));
                }
                assert(fdecodable(ces[i as int].1));
                if prefix_at(enc(ces[i as int].0) + enc(ces[i as int].1), s, q) {
                    lemma_prefix_split(enc(ces[i as int].0), enc(ces[i as int].1), s, q);
                    assert(fdecodable_at(s, q2));
                } else {
                    lemma_cut_split(enc(ces[i as int].0), enc(ces[i as int].1), s, q);
                    assert(fcut_at(s, q2));
                }
            }
        }
        let val = match fparse_value(bytes, pos) {
            Ok(v) => v,
            Err(e) => {
                return Err(e);
            },
        };
        if i > 0 && !bytes_lt(prev.as_slice(), key_bytes) {
            return Err(FrameError::NonCanonical("map keys not strictly sorted"));
        }
        prev = slice_to_vec(key_bytes);
        proof {
            lemma_fentries_push(entries@, key, val);
            lemma_prefix_concat(enc_entries(mes), enc(key@), s, p1);
            lemma_prefix_concat(enc_entries(mes) + enc(key@), enc(val@), s, p1);
            let nes = mes.push((key@, val@));
            assert forall|a: int, b: int| 0 <= a < b < nes.len() implies lex_lt(
                enc(#[trigger] nes[a].0),
                enc(#[trigger] nes[b].0),
            ) by {
                if b == i {
                    if a < i - 1 {
                        lemma_lex_transitive(enc(nes[a].0), enc(nes[i - 1].0), enc(key@));
                    }
                    assert(mes[i - 1] == (entries@[i - 1].0@, entries@[i - 1].1@));
                } else {
                    assert(nes[a] == mes[a] && nes[b] == mes[b]);
                }
            }
            if ok {
                lemma_fdecodable_sized(val@);
                lemma_fdecodable_sized(es[i as int].1);
                lemma_enc_unique(val@, es[i as int].1, s, q2);
                assert(es.take(i + 1) =~= es.take(i as int).push(es[i as int]));
            }
            if cut {
                lemma_fdecodable_sized(val@);
                lemma_fdecodable_sized(ces[i as int].1);
                lemma_enc_unique(val@, ces[i as int].1, s, q2);
                assert(ces.take(i + 1) =~= ces.take(i as int).push(ces[i as int]));
                lemma_cut_split(enc(ces[i as int].0) + enc(ces[i as int].1), enc_entries(ces.skip(i + 1)), s, q);
                lemma_prefix_concat(enc(ces[i as int].0), enc(ces[i as int].1), s, q);
            }
        }
        entries.push((key, val));
        i = i + 1;
    }
    let ghost ml = fmodel_entries(entries@);
    proof {
        if cut {
            assert(ces.skip(n as int) =~= Seq::<(Model, Model)>::empty());
        }
        lemma_fmodel_entries(entries@);
        assert forall|k: int| 0 <= k < ml.len() implies fdecodable(#[trigger] ml[k].0) && fdecodable(
            ml[k].1,
        ) by {
            assert(ml[k] == (entries@[k].0@, entries@[k].1@));
        }
        lemma_prefix_concat(head(5, n as u64), enc_entries(ml), s, p0);
        assert(ml.len() == n);
        assert(keys_ascending(ml));
        assert(fdecodable(Model::Dict(ml)));
        assert(enc(Model::Dict(ml)) == head(5, n as u64) + enc_entries(ml));
    }
    Ok(Value::Dict(entries))
}

/// Parse one value starting at `*pos`.
fn fparse_value(bytes: &[u8], pos: &mut usize) -> (res: Result<Value, FrameError>)
    requires
        *old(pos) <= bytes.len(),
    ensures
        *final(pos) <= bytes.len(),
        fparsed(res, bytes@, *old(pos) as int, *final(pos) as int),
        fdecodable_at(bytes@, *old(pos) as int) ==> res is Ok,
        fcut_at(bytes@, *old(pos) as int) ==> res == Err::<Value, FrameError>(FrameError::Truncated),
    decreases bytes.len() - *old(pos), 1int,
{
    let ghost p0 = *old(pos) as int;
    let ghost s = bytes@;
    let ghost ok = fdecodable_at(s, p0);
    let ghost tm = choose|m: Model| fdecodable(m) && prefix_at(enc(m), s, p0);
    let ib = match read_u8(bytes, pos) {
        Ok(b) => b,
        Err(_) => {
            proof {
                if ok {
                    lemma_first_byte(tm, s, p0);
                }
            }
            return Err(FrameError::Truncated);
        },
    };
    let major = ib >> 5;
    let low = ib & 0x1f;
    let ghost cut = fcut_at(s, p0);
    let ghost cm = choose|m: Model| fdecodable(m) && cut_at(enc(m), s, p0);
    proof {
        lemma_split_byte(ib);
        if cut {
            lemma_cut_head(cm, s, p0, major, low);
            if major == 0 {
                assert(!cut_at(body_of(cm), s, p0 + head_len(arg_of(cm))));
                assert(cut_at(head(0, arg_of(cm)), s, p0));
            }
        }
        if ok {
            lemma_target_major(tm, s, p0, major, low);
        }
    }
    if major == 0 {
        match fread_arg(bytes, pos, 0, low) {
            Ok(a) => Ok(Value::Uint(a)),
            Err(e) => {
                proof {
                    if ok {
                        assert(prefix_at(head(0, arg_of(tm)), s, p0));
                    }
                }
                Err(e)
            },
        }
    } else if major == 1 {
        Err(FrameError::Unsupported("negative integers"))
    } else if major < 4 {
        fparse_string(bytes, pos, major, low)
    } else if major == 4 {
        fparse_array(bytes, pos, low)
    } else if major == 5 {
        fparse_map(bytes, pos, low)
    } else if major == 6 {
        Err(FrameError::Unsupported("tags"))
    } else if low == 20 {
        proof {
            assert(s.subrange(p0, p0 + 1) =~= seq![0xf4u8]);
        }
        Ok(Value::Bool(false))
    } else if low == 21 {
        proof {
            assert(s.subrange(p0, p0 + 1) =~= seq![0xf5u8]);
        }
        Ok(Value::Bool(true))
    } else if low == 22 {
        proof {
            assert(s.subrange(p0, p0 + 1) =~= seq![0xf6u8]);
        }
        Ok(Value::Null)
    } else {
        Err(FrameError::Unsupported("simple value or float"))
    }
}

/// Decode exactly one value filling all of `bytes`: the one
/// frame-decodable value whose encoding is `bytes`.
pub fn decode_value_complete(bytes: &[u8]) -> (res: Result<Value, FrameError>)
    ensures
        res matches Ok(v) ==> fdecodable(v@) && enc(v@) == bytes@,
        forall|m: Model| fdecodable(m) && enc(m) == bytes@ ==> (res matches Ok(v) && v@ == m),
        fcut_at(bytes@, 0) ==> res == Err::<Value, FrameError>(FrameError::Truncated),
{
    let mut pos: usize = 0;
    let value = fparse_value(bytes, &mut pos);
    proof {
        assert forall|m: Model| fdecodable(m) && enc(m) == bytes@ implies (value matches Ok(v) && v@
            == m) by {
            assert(bytes@.subrange(0, enc(m).len() as int) =~= bytes@);
            assert(prefix_at(enc(m), bytes@, 0));
            let v = value->Ok_0;
            lemma_fdecodable_sized(m);
            lemma_fdecodable_sized(v@);
            lemma_enc_unique(v@, m, bytes@, 0);
        }
    }
    match value {
        Ok(v) => {
            if pos != bytes.len() {
                proof {
                    assert forall|m: Model| fdecodable(m) && enc(m) == bytes@ implies false by {
                        assert(bytes@.subrange(0, enc(m).len() as int) =~= bytes@);
                        lemma_fdecodable_sized(m);
                        lemma_fdecodable_sized(v@);
                        lemma_enc_unique(v@, m, bytes@, 0);
                    }
                }
                return Err(FrameError::TrailingBytes);
            }
            proof {
                assert(bytes@.subrange(0, enc(v@).len() as int) =~= bytes@);
            }
            Ok(v)
        },
        Err(e) => Err(e),
    }
}

// ---------------------------------------------------------------------
// Frames
// ---------------------------------------------------------------------

/// `sub_id` must be at most this many bytes.
pub const MAX_SUB_ID_BYTES: usize = 64;

/// A frame sent by a client to the relay.
#[derive(Debug, Clone, PartialEq)]
pub enum ClientFrame {
    /// `["REQ", sub_id, filter]`
    Req { sub_id: String, filter: Filter },
    /// `["CLOSE", sub_id]`
    Close { sub_id: String },
    /// `["PUB", record, nonce]`
    Pub { record_bytes: Vec<u8>, nonce: Option<u64> },
}

/// A frame sent by the relay to a client.
#[derive(Debug, Clone, PartialEq)]
pub enum RelayFrame {
    /// `["REC", sub_id, seq, record]`
    Rec { sub_id: String, seq: u64, record_bytes: Vec<u8> },
    /// `["EOSE", sub_id]`
    Eose { sub_id: String },
    /// `["OK", id, accepted, reason]`
    Ack { id: [u8; 32], accepted: bool, reason: String },
    /// `["CLOSED", sub_id, reason]`
    Closed { sub_id: String, reason: String },
}

/// The abstract content of a client frame.
pub enum ClientFrameModel {
    Req { sub_id: Seq<char>, filter: FilterModel },
    Close { sub_id: Seq<char> },
    Pub { record: Seq<u8>, nonce: Option<u64> },
}

/// The abstract content of a relay frame.
pub enum RelayFrameModel {
    Rec { sub_id: Seq<char>, seq: u64, record: Seq<u8> },
    Eose { sub_id: Seq<char> },
    Ack { id: Seq<u8>, accepted: bool, reason: Seq<char> },
    Closed { sub_id: Seq<char>, reason: Seq<char> },
}

impl View for ClientFrame {
    type V = ClientFrameModel;

    open spec fn view(&self) -> ClientFrameModel {
        match self {
            ClientFrame::Req { sub_id, filter } => ClientFrameModel::Req { sub_id: sub_id@, filter: filter@ },
            ClientFrame::Close { sub_id } => ClientFrameModel::Close { sub_id: sub_id@ },
            ClientFrame::Pub { record_bytes, nonce } => ClientFrameModel::Pub { record: record_bytes@, nonce: *nonce },
        }
    }
}

impl View for RelayFrame {
    type V = RelayFrameModel;

    open spec fn view(&self) -> RelayFrameModel {
        match self {
            RelayFrame::Rec { sub_id, seq, record_bytes } => RelayFrameModel::Rec {
                sub_id: sub_id@,
                seq: *seq,
                record: record_bytes@,
            },
            RelayFrame::Eose { sub_id } => RelayFrameModel::Eose { sub_id: sub_id@ },
            RelayFrame::Ack { id, accepted, reason } => RelayFrameModel::Ack {
                id: id@,
                accepted: *accepted,
                reason: reason@,
            },
            RelayFrame::Closed { sub_id, reason } => RelayFrameModel::Closed { sub_id: sub_id@, reason: reason@ },
        }
    }
}

pub open spec fn tag_req() -> Seq<char> {
    seq!['R', 'E', 'Q']
}

pub open spec fn tag_close() -> Seq<char> {
    seq!['C', 'L', 'O', 'S', 'E']
}

pub open spec fn tag_pub() -> Seq<char> {
    seq!['P', 'U', 'B']
}

pub open spec fn tag_rec() -> Seq<char> {
    seq!['R', 'E', 'C']
}

pub open spec fn tag_eose() -> Seq<char> {
    seq!['E', 'O', 'S', 'E']
}

pub open spec fn tag_ok() -> Seq<char> {
    seq!['O', 'K']
}

pub open spec fn tag_closed() -> Seq<char> {
    seq!['C', 'L', 'O', 'S', 'E', 'D']
}

/// A subscription id: text of at most 64 UTF-8 bytes.
pub open spec fn sub_id_of(m: Model) -> Option<Seq<char>> {
    match m {
        Model::Text(t) => if encode_utf8(t).len() <= MAX_SUB_ID_BYTES {
            Some(t)
        } else {
            None
        },
        _ => None,
    }
}

/// The text tag of a frame array, when it has one.
pub open spec fn frame_tag(m: Model) -> Option<Seq<char>> {
    match m {
        Model::Array(items) => if items.len() >= 1 && items[0] is Text {
            Some(items[0]->Text_0)
        } else {
            None
        },
        _ => None,
    }
}

/// The client frame a decoded value stands for.
pub open spec fn client_frame_of(m: Model) -> Option<ClientFrameModel> {
    match m {
        Model::Array(items) => if items.len() >= 1 && items[0] is Text {
            let tag = items[0]->Text_0;
            if tag == tag_req() {
                if items.len() == 3 && sub_id_of(items[1]) is Some && filter_of(items[2]) is Ok {
                    Some(ClientFrameModel::Req { sub_id: sub_id_of(items[1])->0, filter: filter_of(items[2])->Ok_0 })
                } else {
                    None
                }
            } else if tag == tag_close() {
                if items.len() == 2 && sub_id_of(items[1]) is Some {
                    Some(ClientFrameModel::Close { sub_id: sub_id_of(items[1])->0 })
                } else {
                    None
                }
            } else if tag == tag_pub() {
                if items.len() == 3 && items[1] is Bytes && (items[2] is Null || items[2] is Uint) {
                    Some(ClientFrameModel::Pub {
                        record: items[1]->Bytes_0,
                        nonce: if items[2] is Uint { Some(items[2]->Uint_0) } else { None },
                    })
                } else {
                    None
                }
            } else {
                None
            }
        } else {
            None
        },
        _ => None,
    }
}

/// The error a sub_id that is not one is refused with.
pub open spec fn sub_id_error(m: Model) -> FrameError {
    if m is Text {
        FrameError::BadShape("sub_id exceeds 64 bytes")
    } else {
        FrameError::BadShape("sub_id must be text")
    }
}

/// Whether `e` is the error a value that stands for no client frame is
/// refused with: the first check it fails.
pub open spec fn client_frame_error(m: Model, e: FrameError) -> bool {
    match m {
        Model::Array(items) => if items.len() >= 1 && items[0] is Text {
            let tag = items[0]->Text_0;
            if tag == tag_req() {
                if items.len() != 3 {
                    e == FrameError::BadShape("REQ takes [tag, sub_id, filter]")
                } else if sub_id_of(items[1]) is None {
                    e == sub_id_error(items[1])
                } else {
                    e == FrameError::BadShape("invalid filter")
                }
            } else if tag == tag_close() {
                if items.len() != 2 {
                    e == FrameError::BadShape("CLOSE takes [tag, sub_id]")
                } else {
                    e == sub_id_error(items[1])
                }
            } else if tag == tag_pub() {
                if items.len() != 3 {
                    e == FrameError::BadShape("PUB takes [tag, record, nonce]")
                } else if !(items[1] is Bytes) {
                    e == FrameError::BadShape("PUB record must be bytes")
                } else {
                    e == FrameError::BadShape("PUB nonce must be uint or null")
                }
            } else {
                e matches FrameError::UnknownFrameTag(t) && t@ == tag
            }
        } else {
            e == FrameError::BadShape("frame missing text tag")
        },
        _ => e == FrameError::BadShape("frame is not an array"),
    }
}

/// Whether `e` is the error a value that stands for no relay frame is
/// refused with: the first check it fails.
pub open spec fn relay_frame_error(m: Model, e: FrameError) -> bool {
    match m {
        Model::Array(items) => if items.len() >= 1 && items[0] is Text {
            let tag = items[0]->Text_0;
            if tag == tag_rec() {
                if items.len() != 4 {
                    e == FrameError::BadShape("REC takes [tag, sub_id, seq, record]")
                } else if sub_id_of(items[1]) is None {
                    e == sub_id_error(items[1])
                } else if !(items[2] is Uint) {
                    e == FrameError::BadShape("REC seq must be uint")
                } else {
                    e == FrameError::BadShape("REC record must be bytes")
                }
            } else if tag == tag_eose() {
                if items.len() != 2 {
                    e == FrameError::BadShape("EOSE takes [tag, sub_id]")
                } else {
                    e == sub_id_error(items[1])
                }
            } else if tag == tag_ok() {
                if items.len() != 4 {
                    e == FrameError::BadShape("OK takes [tag, id, accepted, reason]")
                } else if !(items[1] is Bytes && items[1]->Bytes_0.len() == 32) {
                    e == FrameError::BadShape("OK id must be bytes(32)")
                } else if !(items[2] is Bool) {
                    e == FrameError::BadShape("OK accepted must be bool")
                } else {
                    e == FrameError::BadShape("OK reason must be text")
                }
            } else if tag == tag_closed() {
                if items.len() != 3 {
                    e == FrameError::BadShape("CLOSED takes [tag, sub_id, reason]")
                } else if sub_id_of(items[1]) is None {
                    e == sub_id_error(items[1])
                } else {
                    e == FrameError::BadShape("CLOSED reason must be text")
                }
            } else {
                e matches FrameError::UnknownFrameTag(t) && t@ == tag
            }
        } else {
            e == FrameError::BadShape("frame missing text tag")
        },
        _ => e == FrameError::BadShape("frame is not an array"),
    }
}

/// The relay frame a decoded value stands for.
pub open spec fn relay_frame_of(m: Model) -> Option<RelayFrameModel> {
    match m {
        Model::Array(items) => if items.len() >= 1 && items[0] is Text {
            let tag = items[0]->Text_0;
            if tag == tag_rec() {
                if items.len() == 4 && sub_id_of(items[1]) is Some && items[2] is Uint && items[3] is Bytes {
                    Some(RelayFrameModel::Rec {
                        sub_id: sub_id_of(items[1])->0,
                        seq: items[2]->Uint_0,
                        record: items[3]->Bytes_0,
                    })
                } else {
                    None
                }
            } else if tag == tag_eose() {
                if items.len() == 2 && sub_id_of(items[1]) is Some {
                    Some(RelayFrameModel::Eose { sub_id: sub_id_of(items[1])->0 })
                } else {
                    None
                }
            } else if tag == tag_ok() {
                if items.len() == 4 && items[1] is Bytes && items[1]->Bytes_0.len() == 32 && items[2] is Bool
                    && items[3] is Text {
                    Some(RelayFrameModel::Ack {
                        id: items[1]->Bytes_0,
                        accepted: items[2]->Bool_0,
                        reason: items[3]->Text_0,
                    })
                } else {
                    None
                }
            } else if tag == tag_closed() {
                if items.len() == 3 && sub_id_of(items[1]) is Some && items[2] is Text {
                    Some(RelayFrameModel::Closed { sub_id: sub_id_of(items[1])->0, reason: items[2]->Text_0 })
                } else {
                    None
                }
            } else {
                None
            }
        } else {
            None
        },
        _ => None,
    }
}

/// The value a client frame is written as.
pub open spec fn client_frame_value(f: ClientFrameModel) -> Model {
    match f {
        ClientFrameModel::Req { sub_id, filter } => Model::Array(
            seq![Model::Text(tag_req()), Model::Text(sub_id), Model::Dict(filter_entries(filter))],
        ),
        ClientFrameModel::Close { sub_id } => Model::Array(seq![Model::Text(tag_close()), Model::Text(sub_id)]),
        ClientFrameModel::Pub { record, nonce } => Model::Array(
            seq![
                Model::Text(tag_pub()),
                Model::Bytes(record),
                match nonce {
                    Some(n) => Model::Uint(n),
                    None => Model::Null,
                },
            ],
        ),
    }
}

/// The value a relay frame is written as.
pub open spec fn relay_frame_value(f: RelayFrameModel) -> Model {
    match f {
        RelayFrameModel::Rec { sub_id, seq, record } => Model::Array(
            seq![Model::Text(tag_rec()), Model::Text(sub_id), Model::Uint(seq), Model::Bytes(record)],
        ),
        RelayFrameModel::Eose { sub_id } => Model::Array(seq![Model::Text(tag_eose()), Model::Text(sub_id)]),
        RelayFrameModel::Ack { id, accepted, reason } => Model::Array(
            seq![Model::Text(tag_ok()), Model::Bytes(id), Model::Bool(accepted), Model::Text(reason)],
        ),
        RelayFrameModel::Closed { sub_id, reason } => Model::Array(
            seq![Model::Text(tag_closed()), Model::Text(sub_id), Model::Text(reason)],
        ),
    }
}

/// Read a subscription id: text of at most 64 bytes.
fn read_sub_id(v: &Value) -> (res: Result<String, FrameError>)
    ensures
        match sub_id_of(v@) {
            Some(t) => res matches Ok(s) && s@ == t,
            None => res == Err::<String, FrameError>(sub_id_error(v@)),
        },
{
    let s = match v.as_text() {
        Some(s) => s,
        None => {
            return Err(FrameError::BadShape("sub_id must be text"));
        },
    };
    let b = s.as_bytes();
    proof {
        assert(b@ == encode_utf8(s@));
    }
    if b.len() > MAX_SUB_ID_BYTES {
        return Err(FrameError::BadShape("sub_id exceeds 64 bytes"));
    }
    Ok(s.to_string())
}

fn text_val(s: &str) -> (v: Value)
    ensures
        v@ == Model::Text(s@),
{
    Value::Text(s.to_string())
}

/// A frame array from its items.
fn array_of(items: Vec<Value>) -> (v: Value)
    ensures
        v@ == Model::Array(Seq::new(items@.len(), |i: int| items@[i]@)),
{
    proof {
        lemma_fmodel_list(items@);
        assert(fmodel_list(items@) =~= Seq::new(items@.len(), |i: int| items@[i]@));
    }
    Value::Array(items)
}

impl ClientFrame {
    /// Decode a client frame: the frame whose value is the one
    /// frame-decodable value encoded by `bytes`.
    pub fn decode(bytes: &[u8]) -> (res: Result<Self, FrameError>)
        ensures
            res matches Ok(f) ==> exists|m: Model|
                fdecodable(m) && enc(m) == bytes@ && client_frame_of(m) == Some(f@),
            forall|m: Model|
                fdecodable(m) && enc(m) == bytes@ && #[trigger] client_frame_of(m) is Some ==> (res matches Ok(f)
                    && Some(f@) == client_frame_of(m)),
            forall|m: Model|
                fdecodable(m) && enc(m) == bytes@ && #[trigger] client_frame_of(m) is None ==> (res matches Err(e)
                    && client_frame_error(m, e)),
            fcut_at(bytes@, 0) ==> res == Err::<Self, FrameError>(FrameError::Truncated),
    {
        let value = match decode_value_complete(bytes) {
            Ok(v) => v,
            Err(e) => {
                return Err(e);
            },
        };
        let r = Self::from_value(&value);
        proof {
            assert forall|m: Model| fdecodable(m) && enc(m) == bytes@ implies m == value@ by {
            }
        }
        r
    }

    fn from_value(value: &Value) -> (res: Result<Self, FrameError>)
        ensures
            match client_frame_of(value@) {
                Some(fm) => res matches Ok(f) && f@ == fm,
                None => res matches Err(e) && client_frame_error(value@, e),
            },
    {
        proof {
            reveal_strlit("REQ");
            reveal_strlit("CLOSE");
            reveal_strlit("PUB");
            assert("REQ"@ =~= tag_req());
            assert("CLOSE"@ =~= tag_close());
            assert("PUB"@ =~= tag_pub());
        }
        let arr = match value.as_array() {
            Some(a) => a,
            None => {
                return Err(FrameError::BadShape("frame is not an array"));
            },
        };
        proof {
            lemma_fmodel_list(arr@);
        }
        if arr.len() == 0 {
            return Err(FrameError::BadShape("frame missing text tag"));
        }
        let tag = match arr[0].as_text() {
            Some(t) => t,
            None => {
                return Err(FrameError::BadShape("frame missing text tag"));
            },
        };
        if str_eq(tag, "REQ") {
            if arr.len() != 3 {
                return Err(FrameError::BadShape("REQ takes [tag, sub_id, filter]"));
            }
            let sub_id = match read_sub_id(&arr[1]) {
                Ok(s) => s,
                Err(e) => {
                    return Err(e);
                },
            };
            let filter = match Filter::from_value(&arr[2]) {
                Ok(f) => f,
                Err(_) => {
                    return Err(FrameError::BadShape("invalid filter"));
                },
            };
            Ok(ClientFrame::Req { sub_id, filter })
        } else if str_eq(tag, "CLOSE") {
            if arr.len() != 2 {
                return Err(FrameError::BadShape("CLOSE takes [tag, sub_id]"));
            }
            let sub_id = match read_sub_id(&arr[1]) {
                Ok(s) => s,
                Err(e) => {
                    return Err(e);
                },
            };
            Ok(ClientFrame::Close { sub_id })
        } else if str_eq(tag, "PUB") {
            if arr.len() != 3 {
                return Err(FrameError::BadShape("PUB takes [tag, record, nonce]"));
            }
            let record_bytes = match arr[1].as_bytes() {
                Some(b) => bytes_to_vec(b),
                None => {
                    return Err(FrameError::BadShape("PUB record must be bytes"));
                },
            };
            let nonce = match &arr[2] {
                Value::Null => None,
                Value::Uint(n) => Some(*n),
                _ => {
                    return Err(FrameError::BadShape("PUB nonce must be uint or null"));
                },
            };
            Ok(ClientFrame::Pub { record_bytes, nonce })
        } else {
            let t = tag.to_string();
            Err(FrameError::UnknownFrameTag(t))
        }
    }

    /// The frame's value: `[tag, fields...]`.
    fn to_value(&self) -> (v: Value)
        ensures
            v@ == client_frame_value(self@),
    {
        proof {
            reveal_strlit("REQ");
            reveal_strlit("CLOSE");
            reveal_strlit("PUB");
            assert("REQ"@ =~= tag_req());
            assert("CLOSE"@ =~= tag_close());
            assert("PUB"@ =~= tag_pub());
        }
        match self {
            ClientFrame::Req { sub_id, filter } => {
                let v = array_of(vec![text_val("REQ"), text_val(sub_id.as_str()), filter.to_value()]);
                assert(v@->Array_0 =~= client_frame_value(self@)->Array_0);
                v
            },
            ClientFrame::Close { sub_id } => {
                let v = array_of(vec![text_val("CLOSE"), text_val(sub_id.as_str())]);
                assert(v@->Array_0 =~= client_frame_value(self@)->Array_0);
                v
            },
            ClientFrame::Pub { record_bytes, nonce } => {
                let n = match nonce {
                    Some(n) => Value::Uint(*n),
                    None => Value::Null,
                };
                let v = array_of(vec![text_val("PUB"), Value::Bytes(record_bytes.clone()), n]);
                assert(v@->Array_0 =~= client_frame_value(self@)->Array_0);
                v
            },
        }
    }

    /// The frame's canonical encoding.
    pub fn encode(&self) -> (b: Vec<u8>)
        ensures
            b@ == fenc(client_frame_value(self@)),
    {
        encode_value_to_vec(&self.to_value())
    }
}

impl RelayFrame {
    /// Decode a relay frame: the frame whose value is the one
    /// frame-decodable value encoded by `bytes`.
    pub fn decode(bytes: &[u8]) -> (res: Result<Self, FrameError>)
        ensures
            res matches Ok(f) ==> exists|m: Model|
                fdecodable(m) && enc(m) == bytes@ && relay_frame_of(m) == Some(f@),
            forall|m: Model|
                fdecodable(m) && enc(m) == bytes@ && #[trigger] relay_frame_of(m) is Some ==> (res matches Ok(f)
                    && Some(f@) == relay_frame_of(m)),
            forall|m: Model|
                fdecodable(m) && enc(m) == bytes@ && #[trigger] relay_frame_of(m) is None ==> (res matches Err(e)
                    && relay_frame_error(m, e)),
            fcut_at(bytes@, 0) ==> res == Err::<Self, FrameError>(FrameError::Truncated),
    {
        let value = match decode_value_complete(bytes) {
            Ok(v) => v,
            Err(e) => {
                return Err(e);
            },
        };
        let r = Self::from_value(&value);
        proof {
            assert forall|m: Model| fdecodable(m) && enc(m) == bytes@ implies m == value@ by {
            }
        }
        r
    }

    fn from_value(value: &Value) -> (res: Result<Self, FrameError>)
        ensures
            match relay_frame_of(value@) {
                Some(fm) => res matches Ok(f) && f@ == fm,
                None => res matches Err(e) && relay_frame_error(value@, e),
            },
    {
        proof {
            reveal_strlit("REC");
            reveal_strlit("EOSE");
            reveal_strlit("OK");
            reveal_strlit("CLOSED");
            assert("REC"@ =~= tag_rec());
            assert("EOSE"@ =~= tag_eose());
            assert("OK"@ =~= tag_ok());
            assert("CLOSED"@ =~= tag_closed());
        }
        let arr = match value.as_array() {
            Some(a) => a,
            None => {
                return Err(FrameError::BadShape("frame is not an array"));
            },
        };
        proof {
            lemma_fmodel_list(arr@);
        }
        if arr.len() == 0 {
            return Err(FrameError::BadShape("frame missing text tag"));
        }
        let tag = match arr[0].as_text() {
            Some(t) => t,
            None => {
                return Err(FrameError::BadShape("frame missing text tag"));
            },
        };
        if str_eq(tag, "REC") {
            if arr.len() != 4 {
                return Err(FrameError::BadShape("REC takes [tag, sub_id, seq, record]"));
            }
            let sub_id = match read_sub_id(&arr[1]) {
                Ok(s) => s,
                Err(e) => {
                    return Err(e);
                },
            };
            let seq = match arr[2].as_uint() {
                Some(n) => n,
                None => {
                    return Err(FrameError::BadShape("REC seq must be uint"));
                },
            };
            let record_bytes = match arr[3].as_bytes() {
                Some(b) => bytes_to_vec(b),
                None => {
                    return Err(FrameError::BadShape("REC record must be bytes"));
                },
            };
            Ok(RelayFrame::Rec { sub_id, seq, record_bytes })
        } else if str_eq(tag, "EOSE") {
            if arr.len() != 2 {
                return Err(FrameError::BadShape("EOSE takes [tag, sub_id]"));
            }
            let sub_id = match read_sub_id(&arr[1]) {
                Ok(s) => s,
                Err(e) => {
                    return Err(e);
                },
            };
            Ok(RelayFrame::Eose { sub_id })
        } else if str_eq(tag, "OK") {
            if arr.len() != 4 {
                return Err(FrameError::BadShape("OK takes [tag, id, accepted, reason]"));
            }
            let id = match arr[1].as_bytes32() {
                Some(b) => b,
                None => {
                    return Err(FrameError::BadShape("OK id must be bytes(32)"));
                },
            };
            let accepted = match &arr[2] {
                Value::Bool(b) => *b,
                _ => {
                    return Err(FrameError::BadShape("OK accepted must be bool"));
                },
            };
            let reason = match arr[3].as_text() {
                Some(t) => t.to_string(),
                None => {
                    return Err(FrameError::BadShape("OK reason must be text"));
                },
            };
            Ok(RelayFrame::Ack { id, accepted, reason })
        } else if str_eq(tag, "CLOSED") {
            if arr.len() != 3 {
                return Err(FrameError::BadShape("CLOSED takes [tag, sub_id, reason]"));
            }
            let sub_id = match read_sub_id(&arr[1]) {
                Ok(s) => s,
                Err(e) => {
                    return Err(e);
                },
            };
            let reason = match arr[2].as_text() {
                Some(t) => t.to_string(),
                None => {
                    return Err(FrameError::BadShape("CLOSED reason must be text"));
                },
            };
            Ok(RelayFrame::Closed { sub_id, reason })
        } else {
            let t = tag.to_string();
            Err(FrameError::UnknownFrameTag(t))
        }
    }

    fn to_value(&self) -> (v: Value)
        ensures
            v@ == relay_frame_value(self@),
    {
        proof {
            reveal_strlit("REC");
            reveal_strlit("EOSE");
            reveal_strlit("OK");
            reveal_strlit("CLOSED");
            assert("REC"@ =~= tag_rec());
            assert("EOSE"@ =~= tag_eose());
            assert("OK"@ =~= tag_ok());
            assert("CLOSED"@ =~= tag_closed());
        }
        match self {
            RelayFrame::Rec { sub_id, seq, record_bytes } => {
                let v = array_of(vec![text_val("REC"), text_val(sub_id.as_str()), Value::Uint(*seq), Value::Bytes(record_bytes.clone())]);
                assert(v@->Array_0 =~= relay_frame_value(self@)->Array_0);
                v
            },
            RelayFrame::Eose { sub_id } => {
                let v = array_of(vec![text_val("EOSE"), text_val(sub_id.as_str())]);
                assert(v@->Array_0 =~= relay_frame_value(self@)->Array_0);
                v
            },
            RelayFrame::Ack { id, accepted, reason } => {
                let v = array_of(vec![text_val("OK"), Value::Bytes(bytes_to_vec(id)), Value::Bool(*accepted), text_val(reason.as_str())]);
                assert(v@->Array_0 =~= relay_frame_value(self@)->Array_0);
                v
            },
            RelayFrame::Closed { sub_id, reason } => {
                let v = array_of(vec![text_val("CLOSED"), text_val(sub_id.as_str()), text_val(reason.as_str())]);
                assert(v@->Array_0 =~= relay_frame_value(self@)->Array_0);
                v
            },
        }
    }

    /// The frame's canonical encoding.
    pub fn encode(&self) -> (b: Vec<u8>)
        ensures
            b@ == fenc(relay_frame_value(self@)),
    {
        encode_value_to_vec(&self.to_value())
    }
}

/// Encode a chunk-tree range proof as CBOR `[chunk_index, [sibling
/// hashes]]`.
pub fn encode_chunk_proof(chunk_index: u64, siblings: &[[u8; 32]]) -> (b: Vec<u8>)
    ensures
        b@ == fenc(Model::Array(seq![Model::Uint(chunk_index), Model::Array(bytes_models(hash_seqs(siblings@)))])),
{
    let mut hashes: Vec<Value> = Vec::new();
    let mut i: usize = 0;
    while i < siblings.len()
        invariant
            i <= siblings.len(),
            hashes.len() == i,
            forall|k: int| 0 <= k < i ==> #[trigger] hashes@[k]@ == Model::Bytes(siblings@[k]@),
        decreases siblings.len() - i,
    {
        hashes.push(Value::Bytes(bytes_to_vec(&siblings[i])));
        i = i + 1;
    }
    let inner = array_of(hashes);
    let v = array_of(vec![Value::Uint(chunk_index), inner]);
    proof {
        assert(inner@->Array_0 =~= bytes_models(hash_seqs(siblings@)));
        assert(v@->Array_0 =~= seq![Model::Uint(chunk_index), Model::Array(bytes_models(hash_seqs(siblings@)))]);
    }
    encode_value_to_vec(&v)
}

} // verus!
