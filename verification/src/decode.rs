//! Strict canonical CBOR decoding.
//!
//! [`decode_canonical`] accepts exactly the encodings of *decodable*
//! models: canonical (shortest heads, definite lengths, map keys in
//! strictly ascending bytewise order of their encodings, no floats, no
//! tags, no simple values but `false`/`true`/`null`) and nested at most
//! 64 levels deep. Every length header is checked against the bytes that
//! remain before anything is allocated.

use vstd::prelude::*;
use vstd::utf8::*;
use vstd::slice::{slice_subrange, slice_to_vec};
use crate::codec::{Value, Model, model, model_list, model_entries, head, enc, enc_list, enc_entries};
use crate::cbor_lemmas::{
    prefix_at, sized, head_low, head_len, lemma_head_shape, lemma_head_unique, major_of, arg_of,
    body_of, lemma_enc_shape, lemma_enc_list_front, lemma_enc_entries_front, lemma_enc_list_split,
    lemma_enc_entries_split, lemma_prefix_split, lemma_enc_unique, be2_val, be4_val, be8_val,
    lemma_be2_bytes, lemma_be4_bytes, lemma_be8_bytes, arg_at, len_of_low, lemma_head_at,
    lemma_head_from_bytes, cut_at, lemma_cut_split, lemma_cut_first,
};
use crate::codec::{lemma_model_list, lemma_model_entries, canon, canon_ok, canon_list, canon_keyed, spec_encode_canonical, lemma_canon_list, lemma_canon_keyed, lemma_canon_ok_list, lemma_canon_ok_entries};
use crate::order::{strictly_increasing, payloads, lemma_sort_identity};
use crate::order::{lex_lt, bytes_lt, lemma_lex_transitive, lemma_lex_irreflexive};
use crate::error::Error;
use crate::text::string_from_utf8;

verus! {

/// Maximum nesting depth accepted by the decoders.
pub const MAX_DEPTH: u32 = 64;

/// Map keys whose encodings are in strictly ascending bytewise order.
pub open spec fn keys_ascending(es: Seq<(Model, Model)>) -> bool {
    forall|i: int, j: int|
        0 <= i < j < es.len() ==> lex_lt(enc(#[trigger] es[i].0), enc(#[trigger] es[j].0))
}

/// A model the strict decoder accepts when it starts at nesting level
/// `depth`: canonical (map keys strictly ascending) and nested at most 64
/// levels deep.
pub open spec fn decodable(m: Model, depth: int) -> bool
    decreases m,
{
    0 <= depth <= 64 && match m {
        Model::Bytes(b) => b.len() <= u64::MAX,
        Model::Text(t) => encode_utf8(t).len() <= u64::MAX,
        Model::Array(items) => items.len() <= u64::MAX && forall|i: int|
            0 <= i < items.len() ==> decodable(#[trigger] items[i], depth + 1),
        Model::Dict(es) => es.len() <= u64::MAX && keys_ascending(es) && forall|i: int|
            0 <= i < es.len() ==> decodable(#[trigger] es[i].0, depth + 1) && decodable(
                es[i].1,
                depth + 1,
            ),
        _ => true,
    }
}

/// The keys and values of a decodable map are decodable one level down.
pub proof fn lemma_decodable_entry(es: Seq<(Model, Model)>, depth: int, i: int)
    requires
        decodable(Model::Dict(es), depth),
        0 <= i < es.len(),
    ensures
        decodable(es[i].0, depth + 1),
        decodable(es[i].1, depth + 1),
{
    let m = Model::Dict(es);
    assert(m->Dict_0 == es);
    assert(forall|k: int| 0 <= k < es.len() ==> decodable(#[trigger] es[k].0, depth + 1) && decodable(es[k].1, depth + 1));
}

/// The items of a decodable array are decodable one level down.
pub proof fn lemma_decodable_item(items: Seq<Model>, depth: int, i: int)
    requires
        decodable(Model::Array(items), depth),
        0 <= i < items.len(),
    ensures
        decodable(items[i], depth + 1),
{
}

/// Decodable models have 64-bit lengths throughout.
pub proof fn lemma_decodable_sized(m: Model, depth: int)
    requires
        decodable(m, depth),
    ensures
        sized(m),
    decreases m,
{
    match m {
        Model::Array(items) => {
            assert forall|i: int| 0 <= i < items.len() implies sized(#[trigger] items[i]) by {
                lemma_decodable_sized(items[i], depth + 1);
            }
        },
        Model::Dict(es) => {
            assert forall|i: int| 0 <= i < es.len() implies sized(#[trigger] es[i].0) && sized(
                es[i].1,
            ) by {
                lemma_decodable_sized(es[i].0, depth + 1);
                lemma_decodable_sized(es[i].1, depth + 1);
            }
        },
        _ => {},
    }
}

pub proof fn lemma_prefix_concat(a: Seq<u8>, b: Seq<u8>, s: Seq<u8>, i: int)
    requires
        prefix_at(a, s, i),
        prefix_at(b, s, i + a.len()),
    ensures
        prefix_at(a + b, s, i),
{
    assert(s.subrange(i, i + (a + b).len()) =~= s.subrange(i, i + a.len()) + s.subrange(
        i + a.len(),
        i + a.len() + b.len(),
    ));
}

/// The first byte found at `i` when some encoding is there.
pub proof fn lemma_first_byte(m: Model, s: Seq<u8>, i: int)
    requires
        prefix_at(enc(m), s, i),
    ensures
        i < s.len(),
        s[i] == enc(m)[0],
{
    lemma_enc_shape(m);
    assert(s.subrange(i, i + enc(m).len())[0] == s[i]);
}

pub fn read_u8(bytes: &[u8], pos: &mut usize) -> (res: Result<u8, Error>)
    requires
        *old(pos) <= bytes.len(),
    ensures
        *final(pos) <= bytes.len(),
        res matches Ok(b) ==> *old(pos) < bytes.len() && b == bytes@[*old(pos) as int] && *final(pos)
            == *old(pos) + 1,
        res is Err ==> *old(pos) == bytes.len() && res == Err::<u8, Error>(Error::Cbor("truncated input")),
{
    if *pos < bytes.len() {
        let b = bytes[*pos];
        *pos = *pos + 1;
        Ok(b)
    } else {
        Err(Error::Cbor("truncated input"))
    }
}

/// The big-endian value of the `n` argument bytes at `start`.
pub fn read_be(bytes: &[u8], start: usize, low: u8) -> (v: u64)
    requires
        24 <= low <= 27,
        1 <= start,
        start - 1 + len_of_low(low) <= bytes.len(),
    ensures
        v == arg_at(bytes@, start - 1, low),
{
    if low == 24 {
        bytes[start] as u64
    } else if low == 25 {
        (bytes[start] as u64) * 0x100 + (bytes[start + 1] as u64)
    } else if low == 26 {
        let b = slice_subrange(bytes, start, start + 4);
        assert(b@ == bytes@.subrange(start as int, start + 4));
        (b[0] as u64) * 0x1000000 + (b[1] as u64) * 0x10000 + (b[2] as u64) * 0x100 + (b[3] as u64)
    } else {
        let b = slice_subrange(bytes, start, start + 8);
        assert(b@ == bytes@.subrange(start as int, start + 8));
        proof {
            lemma_be8_bytes(b@);
        }
        (b[0] as u64) * 0x100000000000000 + (b[1] as u64) * 0x1000000000000 + (b[2] as u64)
            * 0x10000000000 + (b[3] as u64) * 0x100000000 + (b[4] as u64) * 0x1000000 + (b[5] as u64)
            * 0x10000 + (b[6] as u64) * 0x100 + (b[7] as u64)
    }
}

/// Why a head's argument could not be read.
pub enum ArgFail {
    /// The argument bytes run past the end of the input.
    Truncated,
    /// The argument uses a wider form than needed; the form's width in
    /// bytes (1, 2, 4 or 8).
    NonShortest(u8),
    /// Additional info 28 to 30.
    Reserved,
    /// Additional info 31 (indefinite length).
    Indefinite,
}

/// Read the argument of a head whose first byte (just consumed, at
/// `pos - 1`) is `major * 32 + low`, enforcing the shortest form.
pub fn read_head_arg(bytes: &[u8], pos: &mut usize, major: u8, low: u8) -> (res: Result<u64, ArgFail>)
    requires
        1 <= *old(pos) <= bytes.len(),
        major < 8,
        low < 32,
        bytes@[*old(pos) - 1] == major * 32 + low,
    ensures
        *final(pos) <= bytes.len(),
        res matches Ok(a) ==> prefix_at(head(major, a), bytes@, *old(pos) - 1) && *final(pos)
            == *old(pos) - 1 + head_len(a),
        (exists|a: u64| prefix_at(head(major, a), bytes@, *old(pos) - 1)) ==> res is Ok,
        (exists|a: u64| #![trigger head(major, a)] cut_at(head(major, a), bytes@, *old(pos) - 1)) ==> res
            == Err::<u64, ArgFail>(ArgFail::Truncated),
        low == 31 ==> res == Err::<u64, ArgFail>(ArgFail::Indefinite),
        24 <= low <= 27 && *old(pos) - 1 + len_of_low(low) <= bytes.len() && head_low(
            arg_at(bytes@, *old(pos) - 1, low) as u64,
        ) != low ==> res matches Err(ArgFail::NonShortest(_)),
{
    let ghost p0 = *old(pos) - 1;
    let ghost s = bytes@;
    proof {
        if exists|a: u64| #![trigger head(major, a)] cut_at(head(major, a), s, p0) {
            let a = choose|a: u64| #![trigger head(major, a)] cut_at(head(major, a), s, p0);
            lemma_head_shape(major, a);
            lemma_cut_first(head(major, a), s, p0);
            assert(low == head_low(a));
            assert(head_len(a) == len_of_low(low));
        }
    }
    if low > 27 || (low >= 24 && bytes.len() - *pos < (if low == 24 {
        1
    } else if low == 25 {
        2
    } else if low == 26 {
        4
    } else {
        8
    })) {
        proof {
            assert forall|a: u64| prefix_at(head(major, a), s, p0) implies false by {
                lemma_head_at(major, a, s, p0);
            }
        }
        if low == 31 {
            return Err(ArgFail::Indefinite);
        } else if low > 27 {
            return Err(ArgFail::Reserved);
        }
        return Err(ArgFail::Truncated);
    }
    let start = *pos;
    let v: u64 = if low < 24 {
        low as u64
    } else {
        read_be(bytes, start, low)
    };
    if head_low_of(v) != low {
        proof {
            assert forall|a: u64| prefix_at(head(major, a), s, p0) implies false by {
                lemma_head_at(major, a, s, p0);
            }
        }
        return Err(ArgFail::NonShortest(if low == 24 {
            1
        } else if low == 25 {
            2
        } else if low == 26 {
            4
        } else {
            8
        }));
    }
    proof {
        lemma_head_from_bytes(major, low, v, s, p0);
    }
    *pos = start - 1 + if low < 24 {
        1
    } else if low == 24 {
        2
    } else if low == 25 {
        3
    } else if low == 26 {
        5
    } else {
        9
    };
    Ok(v)
}

/// Read a head's argument, with the kernel's error for each failure.
fn read_arg(bytes: &[u8], pos: &mut usize, major: u8, low: u8) -> (res: Result<u64, Error>)
    requires
        1 <= *old(pos) <= bytes.len(),
        major < 8,
        low < 32,
        bytes@[*old(pos) - 1] == major * 32 + low,
    ensures
        *final(pos) <= bytes.len(),
        res matches Ok(a) ==> prefix_at(head(major, a), bytes@, *old(pos) - 1) && *final(pos)
            == *old(pos) - 1 + head_len(a),
        (exists|a: u64| prefix_at(head(major, a), bytes@, *old(pos) - 1)) ==> res is Ok,
        (exists|a: u64| #![trigger head(major, a)] cut_at(head(major, a), bytes@, *old(pos) - 1)) ==> res
            matches Err(Error::Cbor(_)),
        arg_noncanonical(bytes@, *old(pos) - 1) ==> res matches Err(Error::NonCanonical(_)),
{
    assert(bytes@[*old(pos) - 1] % 32 == low);
    match read_head_arg(bytes, pos, major, low) {
        Ok(a) => Ok(a),
        Err(ArgFail::Truncated) => Err(Error::Cbor("truncated input")),
        Err(ArgFail::NonShortest(_)) => Err(Error::NonCanonical("non-shortest integer encoding")),
        Err(ArgFail::Reserved) => Err(Error::Cbor("reserved additional info")),
        Err(ArgFail::Indefinite) => Err(Error::NonCanonical("indefinite length not allowed")),
    }
}

/// The additional-info bits of the shortest head for `v`.
pub fn head_low_of(v: u64) -> (low: u8)
    ensures
        low == head_low(v),
{
    if v < 24 {
        v as u8
    } else if v <= 0xff {
        24
    } else if v <= 0xffff {
        25
    } else if v <= 0xffff_ffff {
        26
    } else {
        27
    }
}

/// Some decodable model's encoding starts at `i`.
pub open spec fn decodable_at(s: Seq<u8>, i: int, depth: int) -> bool {
    exists|m: Model| decodable(m, depth) && #[trigger] prefix_at(enc(m), s, i)
}

/// The head at `i` has an argument canonical CBOR never writes that
/// way: an indefinite length, or a longer form than the value needs.
pub open spec fn arg_noncanonical(s: Seq<u8>, i: int) -> bool {
    let low = (s[i] % 32) as u8;
    low == 31 || (24 <= low <= 27 && i + len_of_low(low) <= s.len() && head_low(arg_at(s, i, low) as u64)
        != low)
}

/// The head at `i` is one canonical CBOR never uses: a tag, a float,
/// `undefined` or another simple value, an indefinite length, or an
/// argument in a longer form than needed.
pub open spec fn head_noncanonical(s: Seq<u8>, i: int) -> bool {
    let major = s[i] / 32;
    let low = s[i] % 32;
    &&& 0 <= i < s.len()
    &&& (major == 6 || (major == 7 && 23 <= low <= 27) || (major < 6 && arg_noncanonical(s, i)))
}

/// A map whose keys and values are decodable one level down but whose
/// keys are not in strictly ascending order is encoded whole at `i`.
pub open spec fn unsorted_map_at(s: Seq<u8>, i: int, depth: int) -> bool {
    exists|es: Seq<(Model, Model)>| unsorted_entries(es, depth) && #[trigger] prefix_at(enc(Model::Dict(es)), s, i)
}

/// Entries decodable one level below `depth`, as many as a head can
/// count, whose keys are not in strictly ascending order.
#[verifier::opaque]
pub open spec fn unsorted_entries(es: Seq<(Model, Model)>, depth: int) -> bool {
    es.len() <= u64::MAX && (forall|k: int|
        0 <= k < es.len() ==> decodable(#[trigger] es[k].0, depth + 1) && decodable(es[k].1, depth + 1))
        && !keys_ascending(es)
}

/// Reading a value at `i`, `depth` levels deep, meets something
/// canonical CBOR never writes before anything else goes wrong: a head
/// canonical CBOR never uses (see [`head_noncanonical`]), a whole map
/// with keys out of order, or such a thing as the next item of an array
/// whose count fits the input and whose earlier items are whole and
/// decodable.
pub open spec fn noncanonical_at(s: Seq<u8>, i: int, depth: int) -> bool
    decreases s.len() - i, 1int,
{
    if i < 0 || i >= s.len() || depth < 0 || depth > MAX_DEPTH {
        false
    } else {
        ||| head_noncanonical(s, i)
        ||| unsorted_map_at(s, i, depth)
        ||| nc_array_at(s, i, depth)
    }
}

/// An array at `i` whose count fits the input, whose first items are
/// whole and decodable, and whose next item is [`noncanonical_at`].
pub open spec fn nc_array_at(s: Seq<u8>, i: int, depth: int) -> bool
    decreases s.len() - i, 0int,
{
    exists|n: u64, ms: Seq<Model>|
        #![trigger prefix_at(head(4, n), s, i), prefix_at(enc_list(ms), s, i + head_len(n))]
        0 <= i < s.len() && prefix_at(head(4, n), s, i) && n <= s.len() - (i + head_len(n)) && ms.len() < n
            && (forall|k: int| 0 <= k < ms.len() ==> decodable(#[trigger] ms[k], depth + 1))
            && prefix_at(enc_list(ms), s, i + head_len(n))
            && noncanonical_at(s, i + head_len(n) + enc_list(ms).len(), depth + 1)
}

/// The input from `i` on is a proper beginning of some decodable
/// model's encoding: it ends inside that value.
pub open spec fn cut_short_at(s: Seq<u8>, i: int, depth: int) -> bool {
    exists|m: Model| decodable(m, depth) && #[trigger] cut_at(enc(m), s, i)
}

/// What a successful parse from `i` to `j` promises.
pub open spec fn parsed(res: Result<Value, Error>, s: Seq<u8>, i: int, j: int, depth: int) -> bool {
    res matches Ok(v) ==> decodable(v@, depth) && prefix_at(enc(v@), s, i) && j == i + enc(v@).len()
}

pub proof fn lemma_split_byte(ib: u8)
    ensures
        ib >> 5u8 < 8,
        ib & 0x1fu8 < 32,
        ib == (ib >> 5u8) * 32 + (ib & 0x1fu8),
{
    assert(ib >> 5u8 < 8 && ib & 0x1fu8 < 32 && ib == (ib >> 5u8) * 32 + (ib & 0x1fu8)) by (bit_vector);
}

/// What the first byte at `i` says about the model encoded there.
pub proof fn lemma_target_major(m: Model, s: Seq<u8>, i: int, major: u8, low: u8)
    requires
        prefix_at(enc(m), s, i),
        major < 8,
        low < 32,
        s[i] == major * 32 + low,
    ensures
        major != 6,
        major < 6 ==> major_of(m) == major && head_low(arg_of(m)) == low && prefix_at(
            head(major, arg_of(m)),
            s,
            i,
        ) && prefix_at(body_of(m), s, i + head_len(arg_of(m))),
        major == 7 ==> (low == 20 && m == Model::Bool(false)) || (low == 21 && m == Model::Bool(
            true,
        )) || (low == 22 && m == Model::Null),
{
    lemma_enc_shape(m);
    lemma_first_byte(m, s, i);
    if major_of(m) < 6 {
        lemma_head_shape(major_of(m), arg_of(m));
        lemma_prefix_split(head(major_of(m), arg_of(m)), body_of(m), s, i);
    }
}

/// What the first byte at `i` says about a model whose encoding is cut
/// short there: its head is cut short, or its head is whole and its
/// body cut short.
pub proof fn lemma_cut_head(m: Model, s: Seq<u8>, i: int, major: u8, low: u8)
    requires
        cut_at(enc(m), s, i),
        i < s.len(),
        major < 8,
        low < 32,
        s[i] == major * 32 + low,
    ensures
        major < 6,
        major_of(m) == major,
        head_low(arg_of(m)) == low,
        cut_at(head(major, arg_of(m)), s, i) || (prefix_at(head(major, arg_of(m)), s, i) && cut_at(
            body_of(m),
            s,
            i + head_len(arg_of(m)),
        )),
{
    let e = enc(m);
    lemma_cut_first(e, s, i);
    assert(e.subrange(0, e.len() as int) =~= e);
    lemma_enc_shape(m);
    lemma_target_major(m, e, 0, major, low);
    if major == 7 {
        assert(false);
    }
    lemma_head_shape(major, arg_of(m));
    lemma_cut_split(head(major, arg_of(m)), body_of(m), s, i);
}

/// Every encoded element or entry takes at least one byte.
pub proof fn lemma_enc_list_len(l: Seq<Model>)
    ensures
        enc_list(l).len() >= l.len(),
    decreases l.len(),
{
    if l.len() > 0 {
        lemma_enc_list_len(l.drop_last());
        lemma_enc_shape(l.last());
    }
}

pub proof fn lemma_enc_entries_len(l: Seq<(Model, Model)>)
    ensures
        enc_entries(l).len() >= l.len(),
    decreases l.len(),
{
    if l.len() > 0 {
        lemma_enc_entries_len(l.drop_last());
        lemma_enc_shape(l.last().0);
    }
}

pub proof fn lemma_list_push(items: Seq<Value>, v: Value)
    ensures
        model_list(items.push(v)) == model_list(items).push(v@),
        enc_list(model_list(items.push(v))) == enc_list(model_list(items)) + enc(v@),
{
    assert(items.push(v).drop_last() =~= items);
    assert(model_list(items).push(v@).drop_last() =~= model_list(items));
}

pub proof fn lemma_entries_push(es: Seq<(Value, Value)>, k: Value, v: Value)
    ensures
        model_entries(es.push((k, v))) == model_entries(es).push((k@, v@)),
        enc_entries(model_entries(es.push((k, v)))) == enc_entries(model_entries(es)) + enc(k@)
            + enc(v@),
{
    assert(es.push((k, v)).drop_last() =~= es);
    assert(model_entries(es).push((k@, v@)).drop_last() =~= model_entries(es));
}

/// Read a length argument and check it against the bytes that remain.
fn read_length(bytes: &[u8], pos: &mut usize, major: u8, low: u8) -> (res: Result<usize, Error>)
    requires
        1 <= *old(pos) <= bytes.len(),
        major < 8,
        low < 32,
        bytes@[*old(pos) - 1] == major * 32 + low,
    ensures
        *final(pos) <= bytes.len(),
        res matches Ok(n) ==> prefix_at(head(major, n as u64), bytes@, *old(pos) - 1) && *final(pos)
            == *old(pos) - 1 + head_len(n as u64) && n <= bytes.len() - *final(pos),
        (exists|a: u64|
            #![trigger head(major, a)]
            prefix_at(head(major, a), bytes@, *old(pos) - 1) && a <= bytes.len() - (*old(pos) - 1
                + head_len(a))) ==> res is Ok,
        (exists|a: u64| #![trigger head(major, a)] cut_at(head(major, a), bytes@, *old(pos) - 1)) ==> res
            matches Err(Error::Cbor(_)),
        (exists|a: u64|
            #![trigger head(major, a)]
            prefix_at(head(major, a), bytes@, *old(pos) - 1) && a > bytes.len() - (*old(pos) - 1
                + head_len(a))) ==> res matches Err(Error::Cbor(_)),
        arg_noncanonical(bytes@, *old(pos) - 1) ==> res matches Err(Error::NonCanonical(_)),
{
    let ghost p0 = *old(pos) - 1;
    let n = match read_arg(bytes, pos, major, low) {
        Ok(n) => n,
        Err(e) => {
            return Err(e);
        },
    };
    proof {
        assert forall|a: u64|
            #![trigger head(major, a)]
            prefix_at(head(major, a), bytes@, p0) implies a == n by {
            lemma_head_unique(major, a, major, n, bytes@, p0);
        }
    }
    let remaining = bytes.len() - *pos;
    if n > remaining as u64 {
        return Err(Error::Cbor("length exceeds remaining input"));
    }
    Ok(n as usize)
}

/// Parse an unsigned or negative integer (majors 0 and 1).
fn parse_int(bytes: &[u8], pos: &mut usize, major: u8, low: u8, depth: u32) -> (res: Result<
    Value,
    Error,
>)
    requires
        1 <= *old(pos) <= bytes.len(),
        major < 2,
        low < 32,
        depth <= 64,
        bytes@[*old(pos) - 1] == major * 32 + low,
    ensures
        *final(pos) <= bytes.len(),
        parsed(res, bytes@, *old(pos) - 1, *final(pos) as int, depth as int),
        decodable_at(bytes@, *old(pos) - 1, depth as int) ==> res is Ok,
        cut_short_at(bytes@, *old(pos) - 1, depth as int) ==> res matches Err(Error::Cbor(_)),
        arg_noncanonical(bytes@, *old(pos) - 1) ==> res matches Err(Error::NonCanonical(_)),
{
    let ghost p0 = *old(pos) - 1;
    proof {
        if decodable_at(bytes@, p0, depth as int) {
            let m = choose|m: Model| decodable(m, depth as int) && prefix_at(enc(m), bytes@, p0);
            lemma_target_major(m, bytes@, p0, major, low);
        }
        if cut_short_at(bytes@, p0, depth as int) {
            let m = choose|m: Model| decodable(m, depth as int) && cut_at(enc(m), bytes@, p0);
            lemma_cut_head(m, bytes@, p0, major, low);
            assert(!cut_at(body_of(m), bytes@, p0 + head_len(arg_of(m))));
            assert(cut_at(head(major, arg_of(m)), bytes@, p0));
        }
    }
    let a = match read_arg(bytes, pos, major, low) {
        Ok(a) => a,
        Err(e) => {
            return Err(e);
        },
    };
    if major == 0 {
        Ok(Value::Uint(a))
    } else {
        Ok(Value::Nint(a))
    }
}

/// Parse a byte or text string (majors 2 and 3).
fn parse_string(bytes: &[u8], pos: &mut usize, major: u8, low: u8, depth: u32) -> (res: Result<
    Value,
    Error,
>)
    requires
        1 <= *old(pos) <= bytes.len(),
        2 <= major <= 3,
        low < 32,
        depth <= 64,
        bytes@[*old(pos) - 1] == major * 32 + low,
    ensures
        *final(pos) <= bytes.len(),
        parsed(res, bytes@, *old(pos) - 1, *final(pos) as int, depth as int),
        decodable_at(bytes@, *old(pos) - 1, depth as int) ==> res is Ok,
        cut_short_at(bytes@, *old(pos) - 1, depth as int) ==> res matches Err(Error::Cbor(_)),
        arg_noncanonical(bytes@, *old(pos) - 1) ==> res matches Err(Error::NonCanonical(_)),
{
    let ghost p0 = *old(pos) - 1;
    let ghost s = bytes@;
    let ghost ok = decodable_at(s, p0, depth as int);
    let ghost tm = choose|m: Model| decodable(m, depth as int) && prefix_at(enc(m), s, p0);
    let ghost cut = cut_short_at(s, p0, depth as int);
    let ghost cm = choose|m: Model| decodable(m, depth as int) && cut_at(enc(m), s, p0);
    proof {
        if ok {
            lemma_target_major(tm, s, p0, major, low);
            lemma_head_shape(major, arg_of(tm));
            assert(head(major, arg_of(tm)) == head(major, arg_of(tm)));
        }
        if cut {
            lemma_cut_head(cm, s, p0, major, low);
            lemma_head_shape(major, arg_of(cm));
            assert(body_of(cm).len() == arg_of(cm));
            assert(head(major, arg_of(cm)) == head(major, arg_of(cm)));
        }
    }
    let n = match read_length(bytes, pos, major, low) {
        Ok(n) => n,
        Err(e) => {
            return Err(e);
        },
    };
    let start = *pos;
    let data = slice_to_vec(slice_subrange(bytes, start, start + n));
    *pos = start + n;
    proof {
        if ok {
            lemma_head_unique(major, arg_of(tm), major, n as u64, s, p0);
        }
        assert(prefix_at(data@, s, start as int));
    }
    if major == 2 {
        let v = Value::Bytes(data);
        proof {
            lemma_prefix_concat(head(2, n as u64), data@, s, p0);
        }
        Ok(v)
    } else {
        match string_from_utf8(data) {
            Some(t) => {
                proof {
                    decode_utf8_encode_utf8(data@);
                    lemma_prefix_concat(head(3, n as u64), data@, s, p0);
                }
                Ok(Value::Text(t))
            },
            None => {
                proof {
                    if ok {
                        encode_utf8_valid_utf8(tm->Text_0);
                        assert(data@ =~= encode_utf8(tm->Text_0));
                    }
                }
                Err(Error::Cbor("invalid utf-8 in text"))
            },
        }
    }
}

/// Parse an array (major 4) whose head's first byte was just consumed.
#[verifier::spinoff_prover]
#[verifier::rlimit(30)]
fn parse_array(bytes: &[u8], pos: &mut usize, low: u8, depth: u32) -> (res: Result<Value, Error>)
    requires
        1 <= *old(pos) <= bytes.len(),
        low < 32,
        depth <= 64,
        bytes@[*old(pos) - 1] == 4 * 32 + low,
    ensures
        *final(pos) <= bytes.len(),
        parsed(res, bytes@, *old(pos) - 1, *final(pos) as int, depth as int),
        decodable_at(bytes@, *old(pos) - 1, depth as int) ==> res is Ok,
        cut_short_at(bytes@, *old(pos) - 1, depth as int) ==> res matches Err(Error::Cbor(_)),
        arg_noncanonical(bytes@, *old(pos) - 1) ==> res matches Err(Error::NonCanonical(_)),
        nc_array_at(bytes@, *old(pos) - 1, depth as int) ==> res matches Err(Error::NonCanonical(_)),
    decreases 65 - depth, 0int,
{
    let ghost p0 = *old(pos) - 1;
    let ghost s = bytes@;
    let ghost ok = decodable_at(s, p0, depth as int);
    let ghost tm = choose|m: Model| decodable(m, depth as int) && prefix_at(enc(m), s, p0);
    let ghost ms = tm->Array_0;
    let ghost cut = cut_short_at(s, p0, depth as int);
    let ghost cm = choose|m: Model| decodable(m, depth as int) && cut_at(enc(m), s, p0);
    let ghost cms = cm->Array_0;
    let ghost nca = nc_array_at(s, p0, depth as int);
    let ghost nw = choose|n: u64, ms: Seq<Model>|
        #![trigger prefix_at(head(4, n), s, p0), prefix_at(enc_list(ms), s, p0 + head_len(n))]
        0 <= p0 < s.len() && prefix_at(head(4, n), s, p0) && n <= s.len() - (p0 + head_len(n)) && ms.len() < n
            && (forall|k: int| 0 <= k < ms.len() ==> decodable(#[trigger] ms[k], depth + 1))
            && prefix_at(enc_list(ms), s, p0 + head_len(n))
            && noncanonical_at(s, p0 + head_len(n) + enc_list(ms).len(), depth + 1);
    let ghost ams = nw.1;
    proof {
        if nca {
                assert(head(4u8, nw.0) == head(4u8, nw.0));
        }
        if ok {
            lemma_target_major(tm, s, p0, 4, low);
            lemma_head_shape(4, arg_of(tm));
            lemma_enc_list_len(ms);
            assert(head(4u8, arg_of(tm)) == head(4u8, arg_of(tm)));
        }
        if cut {
            lemma_cut_head(cm, s, p0, 4, low);
            lemma_head_shape(4, arg_of(cm));
            lemma_enc_list_len(cms);
            assert(head(4u8, arg_of(cm)) == head(4u8, arg_of(cm)));
        }
    }
    let n = match read_length(bytes, pos, 4, low) {
        Ok(n) => n,
        Err(e) => {
            return Err(e);
        },
    };
    let ghost p1 = *pos as int;
    proof {
        if ok {
            lemma_head_unique(4, arg_of(tm), 4, n as u64, s, p0);
            assert(ms.take(0) =~= Seq::<Model>::empty());
        }
        if cut {
            lemma_head_unique(4, arg_of(cm), 4, n as u64, s, p0);
            assert(cms.skip(0) =~= cms);
            assert(cms.take(0) =~= Seq::<Model>::empty());
        }
        if nca {
                lemma_head_unique(4, nw.0, 4, n as u64, s, p0);
            lemma_head_shape(4, nw.0);
            assert(ams.take(0) =~= Seq::<Model>::empty());
        }
        assert(enc_list(model_list(Seq::<Value>::empty())) =~= Seq::<u8>::empty());
        assert(s.subrange(p1, p1) =~= Seq::<u8>::empty());
    }
    let mut items: Vec<Value> = Vec::new();
    let mut i: usize = 0;
    while i < n
        invariant
            s == bytes@,
            depth <= 64,
            i <= n,
            p0 == *old(pos) - 1,
            ok == decodable_at(s, p0, depth as int),
            items.len() == i,
            p1 <= *pos <= bytes.len(),
            n <= u64::MAX,
            forall|k: int| 0 <= k < i ==> decodable(#[trigger] items@[k]@, depth + 1),
            prefix_at(enc_list(model_list(items@)), s, p1),
            *pos == p1 + enc_list(model_list(items@)).len(),
            ok ==> ms.len() == n && model_list(items@) == ms.take(i as int) && prefix_at(
                enc_list(ms),
                s,
                p1,
            ) && (forall|k: int| 0 <= k < ms.len() ==> decodable(#[trigger] ms[k], depth + 1)),
            cut == cut_short_at(s, p0, depth as int),
            !arg_noncanonical(s, p0),
            nca == nc_array_at(s, p0, depth as int),
            nca ==> ams.len() < n && i <= ams.len() && model_list(items@) == ams.take(i as int) && prefix_at(
                enc_list(ams),
                s,
                p1,
            ) && (forall|k: int| 0 <= k < ams.len() ==> decodable(#[trigger] ams[k], depth + 1))
                && noncanonical_at(s, p1 + enc_list(ams).len(), depth + 1),
            cut ==> cms.len() == n && model_list(items@) == cms.take(i as int) && cut_at(
                enc_list(cms.skip(i as int)),
                s,
                *pos as int,
            ) && (forall|k: int| 0 <= k < cms.len() ==> decodable(#[trigger] cms[k], depth + 1)),
        decreases n - i,
    {
        let ghost q = *pos as int;
        proof {
            if nca {
                if i < ams.len() {
                    lemma_enc_list_split(ams, i as int);
                    lemma_prefix_split(enc_list(ams.take(i as int)), enc_list(ams.skip(i as int)), s, p1);
                    lemma_enc_list_front(ams.skip(i as int));
                    lemma_prefix_split(enc(ams[i as int]), enc_list(ams.skip(i as int).drop_first()), s, q);
                    assert(decodable(ams[i as int], depth + 1));
                    assert(prefix_at(enc(ams[i as int]), s, q));
                    assert(decodable_at(s, q, depth + 1));
                } else {
                    assert(ams.take(i as int) =~= ams);
                    assert(noncanonical_at(s, q, depth + 1));
                }
            }
            if cut {
                lemma_enc_list_front(cms.skip(i as int));
                assert(cms.skip(i as int).drop_first() =~= cms.skip(i + 1));
                assert(cms.skip(i as int)[0] == cms[i as int]);
                lemma_cut_split(enc(cms[i as int]), enc_list(cms.skip(i + 1)), s, q);
                assert(decodable(cms[i as int], depth + 1));
                if prefix_at(enc(cms[i as int]), s, q) {
                    assert(decodable_at(s, q, depth + 1));
                } else {
                    assert(cut_short_at(s, q, depth + 1));
                }
            }
            if ok {
                lemma_enc_list_split(ms, i as int);
                lemma_prefix_split(enc_list(ms.take(i as int)), enc_list(ms.skip(i as int)), s, p1);
                lemma_enc_list_front(ms.skip(i as int));
                lemma_prefix_split(enc(ms[i as int]), enc_list(ms.skip(i as int).drop_first()), s, q);
                assert(decodable(ms[i as int], depth + 1));
                assert(prefix_at(enc(ms[i as int]), s, q));
            }
        }
        let v = match parse_value(bytes, pos, depth + 1) {
            Ok(v) => v,
            Err(e) => {
                return Err(e);
            },
        };
        proof {
            lemma_list_push(items@, v);
            lemma_prefix_concat(enc_list(model_list(items@)), enc(v@), s, p1);
            if ok {
                lemma_decodable_sized(v@, depth + 1);
                lemma_decodable_sized(ms[i as int], depth + 1);
                lemma_enc_unique(v@, ms[i as int], s, q);
                assert(ms.take(i + 1) =~= ms.take(i as int).push(ms[i as int]));
            }
            if cut {
                lemma_decodable_sized(v@, depth + 1);
                lemma_decodable_sized(cms[i as int], depth + 1);
                lemma_enc_unique(v@, cms[i as int], s, q);
                assert(cms.take(i + 1) =~= cms.take(i as int).push(cms[i as int]));
            }
            if nca {
                lemma_decodable_sized(v@, depth + 1);
                lemma_decodable_sized(ams[i as int], depth + 1);
                lemma_enc_unique(v@, ams[i as int], s, q);
                assert(ams.take(i + 1) =~= ams.take(i as int).push(ams[i as int]));
            }
        }
        items.push(v);
        i = i + 1;
    }
    let ghost ml = model_list(items@);
    proof {
        if cut {
            assert(cms.skip(n as int) =~= Seq::<Model>::empty());
        }
        lemma_model_list(items@);
        assert forall|k: int| 0 <= k < ml.len() implies decodable(#[trigger] ml[k], depth + 1) by {
            assert(ml[k] == items@[k]@);
        }
        assert(ml.len() as u64 == n as u64);
        lemma_prefix_concat(head(4, n as u64), enc_list(ml), s, p0);
    }
    Ok(Value::Array(items))
}

/// Parse a map (major 5) whose head's first byte was just consumed; the
/// keys must come in strictly ascending order of their encodings.
#[verifier::spinoff_prover]
#[verifier::rlimit(80)]
fn parse_map(bytes: &[u8], pos: &mut usize, low: u8, depth: u32) -> (res: Result<Value, Error>)
    requires
        1 <= *old(pos) <= bytes.len(),
        low < 32,
        depth <= 64,
        bytes@[*old(pos) - 1] == 5 * 32 + low,
    ensures
        *final(pos) <= bytes.len(),
        parsed(res, bytes@, *old(pos) - 1, *final(pos) as int, depth as int),
        decodable_at(bytes@, *old(pos) - 1, depth as int) ==> res is Ok,
        cut_short_at(bytes@, *old(pos) - 1, depth as int) ==> res matches Err(Error::Cbor(_)),
        arg_noncanonical(bytes@, *old(pos) - 1) ==> res matches Err(Error::NonCanonical(_)),
        unsorted_map_at(bytes@, *old(pos) - 1, depth as int) ==> res matches Err(Error::NonCanonical(_)),
    decreases 65 - depth, 0int,
{
    let ghost p0 = *old(pos) - 1;
    let ghost s = bytes@;
    let ghost ok = decodable_at(s, p0, depth as int);
    let ghost tm = choose|m: Model| decodable(m, depth as int) && prefix_at(enc(m), s, p0);
    let ghost es = tm->Dict_0;
    let ghost cut = cut_short_at(s, p0, depth as int);
    let ghost cm = choose|m: Model| decodable(m, depth as int) && cut_at(enc(m), s, p0);
    let ghost ces = cm->Dict_0;
    let ghost uns = unsorted_map_at(s, p0, depth as int);
    let ghost ues = choose|es: Seq<(Model, Model)>|
        unsorted_entries(es, depth as int) && #[trigger] prefix_at(enc(Model::Dict(es)), s, p0);
    proof {
        if uns {
            reveal(unsorted_entries);
            lemma_prefix_split(head(5, ues.len() as u64), enc_entries(ues), s, p0);
            lemma_head_at(5, ues.len() as u64, s, p0);
            lemma_enc_entries_len(ues);
            assert(head(5u8, ues.len() as u64) == head(5u8, ues.len() as u64));
        }
        if ok {
            lemma_target_major(tm, s, p0, 5, low);
            lemma_head_shape(5, arg_of(tm));
            lemma_enc_entries_len(es);
            assert(head(5u8, arg_of(tm)) == head(5u8, arg_of(tm)));
        }
        if cut {
            lemma_cut_head(cm, s, p0, 5, low);
            lemma_head_shape(5, arg_of(cm));
            lemma_enc_entries_len(ces);
            assert(head(5u8, arg_of(cm)) == head(5u8, arg_of(cm)));
        }
    }
    let n = match read_length(bytes, pos, 5, low) {
        Ok(n) => n,
        Err(e) => {
            return Err(e);
        },
    };
    let ghost p1 = *pos as int;
    proof {
        if ok {
            lemma_head_unique(5, arg_of(tm), 5, n as u64, s, p0);
            assert(es.take(0) =~= Seq::<(Model, Model)>::empty());
        }
        if cut {
            lemma_head_unique(5, arg_of(cm), 5, n as u64, s, p0);
            assert(ces.skip(0) =~= ces);
            assert(ces.take(0) =~= Seq::<(Model, Model)>::empty());
        }
        if uns {
            lemma_head_unique(5, ues.len() as u64, 5, n as u64, s, p0);
            assert(ues.take(0) =~= Seq::<(Model, Model)>::empty());
        }
        assert(enc_entries(model_entries(Seq::<(Value, Value)>::empty())) =~= Seq::<u8>::empty());
        assert(s.subrange(p1, p1) =~= Seq::<u8>::empty());
    }
    let mut entries: Vec<(Value, Value)> = Vec::new();
    let mut prev: Vec<u8> = Vec::new();
    let mut i: usize = 0;
    while i < n
        invariant
            s == bytes@,
            depth <= 64,
            i <= n,
            p0 == *old(pos) - 1,
            ok == decodable_at(s, p0, depth as int),
            entries.len() == i,
            p1 <= *pos <= bytes.len(),
            n <= u64::MAX,
            forall|k: int|
                0 <= k < i ==> decodable(#[trigger] entries@[k].0@, depth + 1) && decodable(
                    entries@[k].1@,
                    depth + 1,
                ),
            keys_ascending(model_entries(entries@)),
            i > 0 ==> prev@ == enc(entries@[i - 1].0@),
            prefix_at(enc_entries(model_entries(entries@)), s, p1),
            *pos == p1 + enc_entries(model_entries(entries@)).len(),
            ok ==> es.len() == n && model_entries(entries@) == es.take(i as int) && prefix_at(
                enc_entries(es),
                s,
                p1,
            ) && keys_ascending(es) && (forall|k: int|
                0 <= k < es.len() ==> decodable(#[trigger] es[k].0, depth + 1) && decodable(
                    es[k].1,
                    depth + 1,
                )),
            cut == cut_short_at(s, p0, depth as int),
            !arg_noncanonical(s, p0),
            uns == unsorted_map_at(s, p0, depth as int),
            uns ==> ues.len() == n && model_entries(entries@) == ues.take(i as int) && prefix_at(
                enc_entries(ues),
                s,
                p1,
            ) && unsorted_entries(ues, depth as int),
            cut ==> ces.len() == n && model_entries(entries@) == ces.take(i as int) && cut_at(
                enc_entries(ces.skip(i as int)),
                s,
                *pos as int,
            ) && keys_ascending(ces) && (forall|k: int|
                0 <= k < ces.len() ==> decodable(#[trigger] ces[k].0, depth + 1) && decodable(
                    ces[k].1,
                    depth + 1,
                )),
        decreases n - i,
    {
        let ghost q = *pos as int;
        proof {
            if uns {
                reveal(unsorted_entries);
                lemma_enc_entries_split(ues, i as int);
                lemma_prefix_split(
                    enc_entries(ues.take(i as int)),
                    enc_entries(ues.skip(i as int)),
                    s,
                    p1,
                );
                lemma_enc_entries_front(ues.skip(i as int));
                lemma_prefix_split(
                    enc(ues[i as int].0) + enc(ues[i as int].1),
                    enc_entries(ues.skip(i as int).drop_first()),
                    s,
                    q,
                );
                lemma_prefix_split(enc(ues[i as int].0), enc(ues[i as int].1), s, q);
                assert(decodable(ues[i as int].0, depth + 1));
            }
            if cut {
                lemma_enc_entries_front(ces.skip(i as int));
                assert(ces.skip(i as int).drop_first() =~= ces.skip(i + 1));
                assert(ces.skip(i as int)[0] == ces[i as int]);
                lemma_cut_split(
                    enc(ces[i as int].0) + enc(ces[i as int].1),
                    enc_entries(ces.skip(i + 1)),
                    s,
                    q,
                );
                assert(decodable(ces[i as int].0, depth + 1));
                if prefix_at(enc(ces[i as int].0) + enc(ces[i as int].1), s, q) {
                    lemma_prefix_split(enc(ces[i as int].0), enc(ces[i as int].1), s, q);
                    assert(decodable_at(s, q, depth + 1));
                } else {
                    lemma_cut_split(enc(ces[i as int].0), enc(ces[i as int].1), s, q);
                    if prefix_at(enc(ces[i as int].0), s, q) {
                        assert(decodable_at(s, q, depth + 1));
                    } else {
                        assert(cut_short_at(s, q, depth + 1));
                    }
                }
            }
            if ok {
                lemma_enc_entries_split(es, i as int);
                lemma_prefix_split(
                    enc_entries(es.take(i as int)),
                    enc_entries(es.skip(i as int)),
                    s,
                    p1,
                );
                lemma_enc_entries_front(es.skip(i as int));
                lemma_prefix_split(
                    enc(es[i as int].0) + enc(es[i as int].1),
                    enc_entries(es.skip(i as int).drop_first()),
                    s,
                    q,
                );
                lemma_prefix_split(enc(es[i as int].0), enc(es[i as int].1), s, q);
                assert(decodable(es[i as int].0, depth + 1));
            }
        }
        let key_start = *pos;
        let key = match parse_value(bytes, pos, depth + 1) {
            Ok(k) => k,
            Err(e) => {
                return Err(e);
            },
        };
        let key_end = *pos;
        let key_bytes = slice_subrange(bytes, key_start, key_end);
        let ghost mes = model_entries(entries@);
        proof {
            assert(key_bytes@ == enc(key@));
            lemma_model_entries(entries@);
            if ok {
                lemma_decodable_sized(key@, depth + 1);
                lemma_decodable_sized(es[i as int].0, depth + 1);
                lemma_enc_unique(key@, es[i as int].0, s, q);
                if i > 0 {
                    assert(mes[i - 1] == es[i - 1]);
                    assert(lex_lt(enc(es[i - 1].0), enc(es[i as int].0)));
                }
            }
            if uns {
                reveal(unsorted_entries);
                lemma_decodable_sized(key@, depth + 1);
                lemma_decodable_sized(ues[i as int].0, depth + 1);
                lemma_enc_unique(key@, ues[i as int].0, s, q);
                if i > 0 {
                    assert(mes[i - 1] == ues[i - 1]);
                }
            }
            if cut {
                lemma_decodable_sized(key@, depth + 1);
                lemma_decodable_sized(ces[i as int].0, depth + 1);
                lemma_enc_unique(key@, ces[i as int].0, s, q);
                if i > 0 {
                    assert(mes[i - 1] == ces[i - 1]);
                    assert(lex_lt(enc(ces[i - 1].0), enc(ces[i as int].0)));
                }
            }
        }
        if i > 0 && !bytes_lt(prev.as_slice(), key_bytes) {
            return Err(Error::NonCanonical("map keys not in strictly ascending order"));
        }
        prev = slice_to_vec(key_bytes);
        let ghost q2 = *pos as int;
        proof {
            if ok {
                assert(decodable(es[i as int].1, depth + 1));
                assert(prefix_at(enc(es[i as int].1), s, q2));
            }
            if uns {
                reveal(unsorted_entries);
                assert(decodable(ues[i as int].1, depth + 1));
                assert(prefix_at(enc(ues[i as int].1), s, q2));
            }
            if cut {
                assert(decodable(ces[i as int].1, depth + 1));
                if prefix_at(enc(ces[i as int].0) + enc(ces[i as int].1), s, q) {
                    lemma_prefix_split(enc(ces[i as int].0), enc(ces[i as int].1), s, q);
                    assert(decodable_at(s, q2, depth + 1));
                } else {
                    lemma_cut_split(enc(ces[i as int].0), enc(ces[i as int].1), s, q);
                    assert(cut_short_at(s, q2, depth + 1));
                }
            }
        }
        let val = match parse_value(bytes, pos, depth + 1) {
            Ok(v) => v,
            Err(e) => {
                return Err(e);
            },
        };
        proof {
            lemma_entries_push(entries@, key, val);
            lemma_prefix_concat(enc_entries(mes), enc(key@), s, p1);
            lemma_prefix_concat(enc_entries(mes) + enc(key@), enc(val@), s, p1);
            let nes = mes.push((key@, val@));
            assert forall|a: int, b: int| 0 <= a < b < nes.len() implies lex_lt(
                enc(#[trigger] nes[a].0),
                enc(#[trigger] nes[b].0),
            ) by {
                if b == i {
                    if a < i - 1 {
                        lemma_lex_transitive(enc(nes[a].0), enc(nes[i - 1].0), enc(key@));
                    }
                    assert(mes[i - 1] == (entries@[i - 1].0@, entries@[i - 1].1@));
                } else {
                    assert(nes[a] == mes[a] && nes[b] == mes[b]);
                }
            }
            if ok {
                lemma_decodable_sized(val@, depth + 1);
                lemma_decodable_sized(es[i as int].1, depth + 1);
                lemma_enc_unique(val@, es[i as int].1, s, q2);
                assert(es.take(i + 1) =~= es.take(i as int).push(es[i as int]));
            }
            if uns {
                reveal(unsorted_entries);
                lemma_decodable_sized(val@, depth + 1);
                lemma_decodable_sized(ues[i as int].1, depth + 1);
                lemma_enc_unique(val@, ues[i as int].1, s, q2);
                assert(ues.take(i + 1) =~= ues.take(i as int).push(ues[i as int]));
            }
            if cut {
                lemma_decodable_sized(val@, depth + 1);
                lemma_decodable_sized(ces[i as int].1, depth + 1);
                lemma_enc_unique(val@, ces[i as int].1, s, q2);
                assert(ces.take(i + 1) =~= ces.take(i as int).push(ces[i as int]));
                lemma_cut_split(enc(ces[i as int].0) + enc(ces[i as int].1), enc_entries(ces.skip(i + 1)), s, q);
                lemma_prefix_concat(enc(ces[i as int].0), enc(ces[i as int].1), s, q);
            }
        }
        entries.push((key, val));
        i = i + 1;
    }
    let ghost ml = model_entries(entries@);
    proof {
        if cut {
            assert(ces.skip(n as int) =~= Seq::<(Model, Model)>::empty());
        }
        if uns {
            reveal(unsorted_entries);
            assert(ues.take(n as int) =~= ues);
        }
        lemma_model_entries(entries@);
        assert forall|k: int| 0 <= k < ml.len() implies decodable(#[trigger] ml[k].0, depth + 1)
            && decodable(ml[k].1, depth + 1) by {
            assert(ml[k] == (entries@[k].0@, entries@[k].1@));
        }
        lemma_prefix_concat(head(5, n as u64), enc_entries(ml), s, p0);
    }
    Ok(Value::Dict(entries))
}

/// Where something non-canonical is met first, there is a byte to read
/// at a depth the decoder goes to.
proof fn lemma_nc_bounds(s: Seq<u8>, i: int, depth: int)
    requires
        noncanonical_at(s, i, depth),
    ensures
        0 <= i < s.len(),
        0 <= depth <= MAX_DEPTH,
{
}

/// The ways a value can meet a non-canonical encoding first.
proof fn lemma_nc_cases(s: Seq<u8>, i: int, depth: int, major: u8, low: u8)
    requires
        noncanonical_at(s, i, depth),
        0 <= i < s.len(),
        major < 8,
        low < 32,
        s[i] == major * 32 + low,
    ensures
        head_noncanonical(s, i) || unsorted_map_at(s, i, depth) || (nc_array_at(s, i, depth) && major == 4),
{
    if nc_array_at(s, i, depth) {
        let w = choose|n: u64, ms: Seq<Model>|
            #![trigger prefix_at(head(4, n), s, i), prefix_at(enc_list(ms), s, i + head_len(n))]
            0 <= i < s.len() && prefix_at(head(4, n), s, i) && n <= s.len() - (i + head_len(n)) && ms.len() < n
                && (forall|k: int| 0 <= k < ms.len() ==> decodable(#[trigger] ms[k], depth + 1))
                && prefix_at(enc_list(ms), s, i + head_len(n))
                && noncanonical_at(s, i + head_len(n) + enc_list(ms).len(), depth + 1);
        lemma_head_at(4, w.0, s, i);
        lemma_head_shape(4, w.0);
        let hl = head_low(w.0);
        assert(major == 4) by {
            assert(major * 32 + low == 128 + hl);
            assert(hl < 28 && low < 32);
        }
    }
}

/// Parse one value starting at `*pos`, at nesting level `depth`.
#[verifier::spinoff_prover]
#[verifier::rlimit(50)]
fn parse_value(bytes: &[u8], pos: &mut usize, depth: u32) -> (res: Result<Value, Error>)
    requires
        *old(pos) <= bytes.len(),
    ensures
        *final(pos) <= bytes.len(),
        parsed(res, bytes@, *old(pos) as int, *final(pos) as int, depth as int),
        decodable_at(bytes@, *old(pos) as int, depth as int) ==> res is Ok,
        cut_short_at(bytes@, *old(pos) as int, depth as int) ==> res matches Err(Error::Cbor(_)),
        depth <= MAX_DEPTH && head_noncanonical(bytes@, *old(pos) as int) ==> res matches Err(
            Error::NonCanonical(_),
        ),
        depth <= MAX_DEPTH && unsorted_map_at(bytes@, *old(pos) as int, depth as int) ==> res matches Err(
            Error::NonCanonical(_),
        ),
        noncanonical_at(bytes@, *old(pos) as int, depth as int) ==> res matches Err(Error::NonCanonical(_)),
    decreases 65 - depth, 1int,
{
    let ghost p0 = *old(pos) as int;
    let ghost s = bytes@;
    let ghost ok = decodable_at(s, p0, depth as int);
    let ghost tm = choose|m: Model| decodable(m, depth as int) && prefix_at(enc(m), s, p0);
    proof {
        if noncanonical_at(s, p0, depth as int) {
            lemma_nc_bounds(s, p0, depth as int);
        }
    }
    if depth > MAX_DEPTH {
        return Err(Error::Cbor("nesting depth exceeds limit"));
    }
    let ib = match read_u8(bytes, pos) {
        Ok(b) => b,
        Err(e) => {
            proof {
                if ok {
                    lemma_first_byte(tm, s, p0);
                }
            }
            return Err(e);
        },
    };
    let major = ib >> 5;
    let low = ib & 0x1f;
    proof {
        lemma_split_byte(ib);
        if ok {
            lemma_target_major(tm, s, p0, major, low);
        }
        if cut_short_at(s, p0, depth as int) {
            let cm = choose|m: Model| decodable(m, depth as int) && cut_at(enc(m), s, p0);
            lemma_cut_head(cm, s, p0, major, low);
        }
        if noncanonical_at(s, p0, depth as int) {
            lemma_nc_cases(s, p0, depth as int, major, low);
        }
        if unsorted_map_at(s, p0, depth as int) {
            let es = choose|es: Seq<(Model, Model)>|
                unsorted_entries(es, depth as int) && #[trigger] prefix_at(enc(Model::Dict(es)), s, p0);
            reveal(unsorted_entries);
            lemma_prefix_split(head(5, es.len() as u64), enc_entries(es), s, p0);
            lemma_head_at(5, es.len() as u64, s, p0);
            assert(major == 5);
        }
    }
    if major < 2 {
        parse_int(bytes, pos, major, low, depth)
    } else if major < 4 {
        parse_string(bytes, pos, major, low, depth)
    } else if major == 4 {
        parse_array(bytes, pos, low, depth)
    } else if major == 5 {
        parse_map(bytes, pos, low, depth)
    } else if major == 6 {
        Err(Error::NonCanonical("tags not allowed"))
    } else if low == 20 {
        proof {
            assert(s.subrange(p0, p0 + 1) =~= seq![0xf4u8]);
        }
        Ok(Value::Bool(false))
    } else if low == 21 {
        proof {
            assert(s.subrange(p0, p0 + 1) =~= seq![0xf5u8]);
        }
        Ok(Value::Bool(true))
    } else if low == 22 {
        proof {
            assert(s.subrange(p0, p0 + 1) =~= seq![0xf6u8]);
        }
        Ok(Value::Null)
    } else if low == 23 {
        Err(Error::NonCanonical("undefined not allowed"))
    } else if low == 24 {
        Err(Error::NonCanonical("simple value not allowed"))
    } else if low <= 27 {
        Err(Error::NonCanonical("floating point not allowed"))
    } else if low <= 30 {
        Err(Error::Cbor("reserved additional info"))
    } else {
        Err(Error::Cbor("unexpected break code"))
    }
}

/// Strict canonical decode: the one decodable value whose encoding is
/// exactly `bytes`. Rejects trailing bytes, truncation, indefinite
/// lengths, floats and simple values other than booleans and null, tags,
/// non-shortest heads, map keys not in strictly ascending order of their
/// encodings (which also catches duplicates), invalid UTF-8 in text,
/// nesting deeper than 64 levels, and any length header exceeding the
/// remaining input.
pub fn decode_canonical(bytes: &[u8]) -> (res: Result<Value, Error>)
    ensures
        res matches Ok(v) ==> decodable(v@, 0) && enc(v@) == bytes@,
        forall|m: Model| decodable(m, 0) && enc(m) == bytes@ ==> (res matches Ok(v) && v@ == m),
        cut_short_at(bytes@, 0, 0) ==> res matches Err(Error::Cbor(_)),
        (exists|m: Model| decodable(m, 0) && #[trigger] prefix_at(enc(m), bytes@, 0) && enc(m).len() < bytes.len())
            ==> res == Err::<Value, Error>(Error::Cbor("trailing bytes after value")),
        head_noncanonical(bytes@, 0) ==> res matches Err(Error::NonCanonical(_)),
        unsorted_map_at(bytes@, 0, 0) ==> res matches Err(Error::NonCanonical(_)),
        noncanonical_at(bytes@, 0, 0) ==> res matches Err(Error::NonCanonical(_)),
{
    let mut pos: usize = 0;
    let value = parse_value(bytes, &mut pos, 0);
    proof {
        if exists|m: Model| decodable(m, 0) && #[trigger] prefix_at(enc(m), bytes@, 0) && enc(m).len() < bytes.len() {
            let m = choose|m: Model| decodable(m, 0) && #[trigger] prefix_at(enc(m), bytes@, 0) && enc(m).len() < bytes.len();
            assert(decodable_at(bytes@, 0, 0));
            let v = value->Ok_0;
            lemma_decodable_sized(m, 0);
            lemma_decodable_sized(v@, 0);
            lemma_enc_unique(v@, m, bytes@, 0);
        }
    }
    proof {
        assert forall|m: Model| decodable(m, 0) && enc(m) == bytes@ implies (value matches Ok(
            v,
        ) && v@ == m) by {
            assert(bytes@.subrange(0, enc(m).len() as int) =~= bytes@);
            assert(prefix_at(enc(m), bytes@, 0));
            let v = value->Ok_0;
            lemma_decodable_sized(m, 0);
            lemma_decodable_sized(v@, 0);
            lemma_enc_unique(v@, m, bytes@, 0);
        }
    }
    match value {
        Ok(v) => {
            if pos != bytes.len() {
                proof {
                    assert forall|m: Model| decodable(m, 0) && enc(m) == bytes@ implies false by {
                        assert(bytes@.subrange(0, enc(m).len() as int) =~= bytes@);
                        lemma_decodable_sized(m, 0);
                        lemma_decodable_sized(v@, 0);
                        lemma_enc_unique(v@, m, bytes@, 0);
                    }
                }
                return Err(Error::Cbor("trailing bytes after value"));
            }
            proof {
                assert(bytes@.subrange(0, enc(v@).len() as int) =~= bytes@);
            }
            Ok(v)
        },
        Err(e) => Err(e),
    }
}

/// A decodable model is already in canonical form.
pub proof fn lemma_decodable_canonical(m: Model, depth: int)
    requires
        decodable(m, depth),
    ensures
        canon_ok(m),
        canon(m) == m,
    decreases m,
{
    match m {
        Model::Array(items) => {
            assert forall|k: int| 0 <= k < items.len() implies canon_ok(#[trigger] items[k])
                && canon(items[k]) == items[k] by {
                lemma_decodable_canonical(items[k], depth + 1);
            }
            lemma_canon_ok_list(items);
            lemma_canon_list(items);
            assert(canon_list(items) =~= items);
        },
        Model::Dict(es) => {
            assert forall|k: int| 0 <= k < es.len() implies canon_ok(#[trigger] es[k].0)
                && canon(es[k].0) == es[k].0 && canon_ok(es[k].1) && canon(es[k].1) == es[k].1 by {
                lemma_decodable_canonical(es[k].0, depth + 1);
                lemma_decodable_canonical(es[k].1, depth + 1);
            }
            lemma_canon_ok_entries(es);
            lemma_canon_keyed(es);
            let ck = canon_keyed(es);
            assert forall|k: int| 0 <= k < es.len() implies #[trigger] ck[k] == (enc(es[k].0), es[k]) by {
            }
            assert(strictly_increasing(ck)) by {
                assert forall|a: int, b: int| 0 <= a < b < ck.len() implies lex_lt(
                    #[trigger] ck[a].0,
                    #[trigger] ck[b].0,
                ) by {
                    assert(ck[a] == (enc(es[a].0), es[a]));
                    assert(ck[b] == (enc(es[b].0), es[b]));
                }
            }
            lemma_sort_identity(ck);
            assert(payloads(ck) =~= es);
        },
        _ => {},
    }
}

/// Canonical round trip: a model that is in canonical form and nested
/// at most 64 levels deep has a canonical encoding, namely its own
/// encoding, so `encode_canonical` gives the bytes that
/// `decode_canonical` turns back into it; and re-encoding what
/// `decode_canonical` returns reproduces the decoded bytes.
pub proof fn lemma_canonical_round_trip(m: Model)
    requires
        decodable(m, 0),
    ensures
        spec_encode_canonical(m) == Some(enc(m)),
{
    lemma_decodable_canonical(m, 0);
}

} // verus!
