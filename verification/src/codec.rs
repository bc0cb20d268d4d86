//! The CBOR value model and its canonical encoding.
//!
//! [`Value`] is the subset of CBOR the protocol uses (no floats, no
//! tags). Its mathematical model is [`Model`]: the same tree with byte
//! strings and text as sequences. [`enc`] is the byte encoding of a model
//! in the order its entries are given; [`canon`] reorders every map's
//! entries by the bytewise order of their canonically encoded keys.

use vstd::prelude::*;
use vstd::utf8::*;
use crate::order::{lex_lt, sort_by_key, strictly_increasing, payloads, key_view, map_payload, sort_entries, bytes_lt, sorted_by_key, lemma_sort_sorted, lemma_sort_map_payload, lemma_lex_total, lemma_lex_transitive, lemma_sort_identity, keys_of, lemma_lex_irreflexive, lemma_sort_member};
use crate::error::Error;
use crate::text::{string_bytes, bytes_to_vec, extend_bytes, bytes_eq, str_eq, string_from_utf8};

verus! {

/// CBOR value subset (no floats, no tags).
#[derive(Debug, PartialEq, Eq)]
pub enum Value {
    /// Major type 0: an unsigned integer.
    Uint(u64),
    /// Major type 1: a negative integer, representing `-1 - n`.
    Nint(u64),
    /// Major type 2: a byte string.
    Bytes(Vec<u8>),
    /// Major type 3: a UTF-8 text string.
    Text(String),
    /// Major type 4: an array.
    Array(Vec<Value>),
    /// Major type 5: a map, as a list of entries.
    Dict(Vec<(Value, Value)>),
    /// Major type 7, additional info 20/21: a boolean.
    Bool(bool),
    /// Major type 7, additional info 22: null.
    Null,
}

/// The mathematical model of a [`Value`].
pub enum Model {
    Uint(u64),
    Nint(u64),
    Bytes(Seq<u8>),
    Text(Seq<char>),
    Array(Seq<Model>),
    Dict(Seq<(Model, Model)>),
    Bool(bool),
    Null,
}

/// The model of a value.
pub open spec fn model(v: Value) -> Model
    decreases v,
{
    match v {
        Value::Uint(n) => Model::Uint(n),
        Value::Nint(n) => Model::Nint(n),
        Value::Bytes(b) => Model::Bytes(b@),
        Value::Text(s) => Model::Text(s@),
        Value::Array(items) => Model::Array(model_list(items@)),
        Value::Dict(entries) => Model::Dict(model_entries(entries@)),
        Value::Bool(b) => Model::Bool(b),
        Value::Null => Model::Null,
    }
}

/// The models of a list of values.
pub open spec fn model_list(s: Seq<Value>) -> Seq<Model>
    decreases s,
{
    if s.len() == 0 {
        Seq::empty()
    } else {
        model_list(s.drop_last()).push(model(s.last()))
    }
}

/// The models of a list of map entries.
pub open spec fn model_entries(s: Seq<(Value, Value)>) -> Seq<(Model, Model)>
    decreases s,
{
    if s.len() == 0 {
        Seq::empty()
    } else {
        model_entries(s.drop_last()).push((model(s.last().0), model(s.last().1)))
    }
}


/// Two big-endian bytes.
pub open spec fn be2(x: int) -> Seq<u8> {
    seq![(x / 0x100) as u8, (x % 0x100) as u8]
}

/// Four big-endian bytes.
pub open spec fn be4(x: int) -> Seq<u8> {
    seq![
        (x / 0x1000000) as u8,
        ((x / 0x10000) % 0x100) as u8,
        ((x / 0x100) % 0x100) as u8,
        (x % 0x100) as u8,
    ]
}

/// Eight big-endian bytes.
pub open spec fn be8(x: int) -> Seq<u8> {
    seq![
        (x / 0x100000000000000) as u8,
        ((x / 0x1000000000000) % 0x100) as u8,
        ((x / 0x10000000000) % 0x100) as u8,
        ((x / 0x100000000) % 0x100) as u8,
        ((x / 0x1000000) % 0x100) as u8,
        ((x / 0x10000) % 0x100) as u8,
        ((x / 0x100) % 0x100) as u8,
        (x % 0x100) as u8,
    ]
}

/// The shortest-form CBOR head for a major type and argument.
pub open spec fn head(major: u8, arg: u64) -> Seq<u8> {
    let top = major as int * 32;
    if arg < 24 {
        seq![(top + arg) as u8]
    } else if arg <= 0xff {
        seq![(top + 24) as u8, arg as u8]
    } else if arg <= 0xffff {
        seq![(top + 25) as u8] + be2(arg as int)
    } else if arg <= 0xffff_ffff {
        seq![(top + 26) as u8] + be4(arg as int)
    } else {
        seq![(top + 27) as u8] + be8(arg as int)
    }
}

/// The encoding of a model, entries in the order given.
pub open spec fn enc(m: Model) -> Seq<u8>
    decreases m,
{
    match m {
        Model::Uint(n) => head(0, n),
        Model::Nint(n) => head(1, n),
        Model::Bytes(b) => head(2, b.len() as u64) + b,
        Model::Text(s) => head(3, encode_utf8(s).len() as u64) + encode_utf8(s),
        Model::Array(items) => head(4, items.len() as u64) + enc_list(items),
        Model::Dict(es) => head(5, es.len() as u64) + enc_entries(es),
        Model::Bool(b) => if b {
            seq![0xf5u8]
        } else {
            seq![0xf4u8]
        },
        Model::Null => seq![0xf6u8],
    }
}

/// The concatenated encodings of a list of models.
pub open spec fn enc_list(s: Seq<Model>) -> Seq<u8>
    decreases s,
{
    if s.len() == 0 {
        Seq::empty()
    } else {
        enc_list(s.drop_last()) + enc(s.last())
    }
}

/// The concatenated encodings of map entries, key then value.
pub open spec fn enc_entries(s: Seq<(Model, Model)>) -> Seq<u8>
    decreases s,
{
    if s.len() == 0 {
        Seq::empty()
    } else {
        enc_entries(s.drop_last()) + enc(s.last().0) + enc(s.last().1)
    }
}

/// The canonical form of a model: every map's entries sorted by the
/// bytewise order of their canonically encoded keys. A key whose own
/// canonical encoding does not exist (it holds a map with duplicate
/// keys) sorts as the empty byte string.
pub open spec fn canon(m: Model) -> Model
    decreases m,
{
    match m {
        Model::Array(items) => Model::Array(canon_list(items)),
        Model::Dict(es) => Model::Dict(payloads(sort_by_key(canon_keyed(es)))),
        _ => m,
    }
}

/// The canonical forms of a list of models.
pub open spec fn canon_list(s: Seq<Model>) -> Seq<Model>
    decreases s,
{
    if s.len() == 0 {
        Seq::empty()
    } else {
        canon_list(s.drop_last()).push(canon(s.last()))
    }
}

/// Map entries in canonical form, each keyed by its key's canonical
/// encoding (the sort key).
pub open spec fn canon_keyed(s: Seq<(Model, Model)>) -> Seq<(Seq<u8>, (Model, Model))>
    decreases s,
{
    if s.len() == 0 {
        Seq::empty()
    } else {
        let k = s.last().0;
        let key = if canon_ok(k) {
            enc(canon(k))
        } else {
            Seq::empty()
        };
        canon_keyed(s.drop_last()).push((key, (canon(k), canon(s.last().1))))
    }
}

/// Whether a model has a canonical encoding: no map anywhere in it has
/// two entries whose keys encode to the same canonical bytes.
pub open spec fn canon_ok(m: Model) -> bool
    decreases m,
{
    match m {
        Model::Array(items) => canon_ok_list(items),
        Model::Dict(es) => canon_ok_entries(es) && strictly_increasing(sort_by_key(canon_keyed(es))),
        _ => true,
    }
}

/// Every model of the list has a canonical encoding.
pub open spec fn canon_ok_list(s: Seq<Model>) -> bool
    decreases s,
{
    if s.len() == 0 {
        true
    } else {
        canon_ok_list(s.drop_last()) && canon_ok(s.last())
    }
}

/// Every key and value of the entries has a canonical encoding.
pub open spec fn canon_ok_entries(s: Seq<(Model, Model)>) -> bool
    decreases s,
{
    if s.len() == 0 {
        true
    } else {
        canon_ok_entries(s.drop_last()) && canon_ok(s.last().0) && canon_ok(s.last().1)
    }
}

/// The canonical encoding of a model that has one.
pub open spec fn spec_encode_canonical(m: Model) -> Option<Seq<u8>> {
    if canon_ok(m) {
        Some(enc(canon(m)))
    } else {
        None
    }
}

impl View for Value {
    type V = Model;

    open spec fn view(&self) -> Model {
        model(*self)
    }
}

impl Value {
    /// A deep copy of this value.
    #[verifier::loop_isolation(false)]
    pub fn deep_clone(&self) -> (r: Value)
        ensures
            r@ == self@,
        decreases self,
    {
        match self {
            Value::Uint(n) => Value::Uint(*n),
            Value::Nint(n) => Value::Nint(*n),
            Value::Bytes(b) => Value::Bytes(b.clone()),
            Value::Text(s) => Value::Text(s.clone()),
            Value::Array(items) => {
                let mut out: Vec<Value> = Vec::new();
                let mut i: usize = 0;
                while i < items.len()
                    invariant
                        i <= items.len(),
                        model_list(out@) == model_list(items@.subrange(0, i as int)),
                    decreases items.len() - i,
                {
                    proof {
                        assert(decreases_to!(*self => items@[i as int]));
                    }
                    let c = items[i].deep_clone();
                    proof {
                        let t = items@.subrange(0, i + 1);
                        assert(t.drop_last() =~= items@.subrange(0, i as int));
                        assert(out@.push(c).drop_last() =~= out@);
                    }
                    out.push(c);
                    i = i + 1;
                }
                assert(items@.subrange(0, items.len() as int) =~= items@);
                Value::Array(out)
            },
            Value::Dict(entries) => {
                let mut out: Vec<(Value, Value)> = Vec::new();
                let mut i: usize = 0;
                while i < entries.len()
                    invariant
                        i <= entries.len(),
                        model_entries(out@) == model_entries(entries@.subrange(0, i as int)),
                    decreases entries.len() - i,
                {
                    proof {
                        assert(decreases_to!(*self => entries@[i as int].0));
                        assert(decreases_to!(*self => entries@[i as int].1));
                    }
                    let k = entries[i].0.deep_clone();
                    let v = entries[i].1.deep_clone();
                    proof {
                        let t = entries@.subrange(0, i + 1);
                        assert(t.drop_last() =~= entries@.subrange(0, i as int));
                        assert(out@.push((k, v)).drop_last() =~= out@);
                    }
                    out.push((k, v));
                    i = i + 1;
                }
                assert(entries@.subrange(0, entries.len() as int) =~= entries@);
                Value::Dict(out)
            },
            Value::Bool(b) => Value::Bool(*b),
            Value::Null => Value::Null,
        }
    }
}

impl Clone for Value {
    fn clone(&self) -> (r: Value)
        ensures
            r@ == self@,
    {
        self.deep_clone()
    }
}


// ---------------------------------------------------------------------
// Structural lemmas
// ---------------------------------------------------------------------

/// `model_list` keeps length and maps each element.
pub proof fn lemma_model_list(s: Seq<Value>)
    ensures
        model_list(s).len() == s.len(),
        forall|j: int| 0 <= j < s.len() ==> #[trigger] model_list(s)[j] == model(s[j]),
    decreases s.len(),
{
    if s.len() > 0 {
        lemma_model_list(s.drop_last());
    }
}

/// `model_entries` keeps length and maps each entry.
pub proof fn lemma_model_entries(s: Seq<(Value, Value)>)
    ensures
        model_entries(s).len() == s.len(),
        forall|j: int|
            0 <= j < s.len() ==> #[trigger] model_entries(s)[j] == (model(s[j].0), model(s[j].1)),
    decreases s.len(),
{
    if s.len() > 0 {
        lemma_model_entries(s.drop_last());
    }
}

/// `canon_list` keeps length and maps each element.
pub proof fn lemma_canon_list(s: Seq<Model>)
    ensures
        canon_list(s).len() == s.len(),
        forall|j: int| 0 <= j < s.len() ==> #[trigger] canon_list(s)[j] == canon(s[j]),
    decreases s.len(),
{
    if s.len() > 0 {
        lemma_canon_list(s.drop_last());
    }
}

/// `canon_keyed` keeps length and keys/canonicalizes each entry.
pub proof fn lemma_canon_keyed(s: Seq<(Model, Model)>)
    ensures
        canon_keyed(s).len() == s.len(),
        forall|j: int|
            0 <= j < s.len() ==> #[trigger] canon_keyed(s)[j] == (
                if canon_ok(s[j].0) {
                    enc(canon(s[j].0))
                } else {
                    Seq::<u8>::empty()
                },
                (canon(s[j].0), canon(s[j].1)),
            ),
    decreases s.len(),
{
    if s.len() > 0 {
        lemma_canon_keyed(s.drop_last());
    }
}

/// A list has canonical encodings exactly when every element does.
pub proof fn lemma_canon_ok_list(s: Seq<Model>)
    ensures
        canon_ok_list(s) <==> forall|j: int| 0 <= j < s.len() ==> canon_ok(#[trigger] s[j]),
    decreases s.len(),
{
    if s.len() > 0 {
        lemma_canon_ok_list(s.drop_last());
        if !canon_ok(s.last()) {
            assert(!canon_ok(s[s.len() - 1]));
        }
        if canon_ok_list(s.drop_last()) && canon_ok(s.last()) {
            assert forall|j: int| 0 <= j < s.len() implies canon_ok(#[trigger] s[j]) by {
                if j < s.len() - 1 {
                    assert(s.drop_last()[j] == s[j]);
                }
            }
        }
        if forall|j: int| 0 <= j < s.len() ==> canon_ok(#[trigger] s[j]) {
            assert forall|j: int| 0 <= j < s.drop_last().len() implies canon_ok(
                #[trigger] s.drop_last()[j],
            ) by {
                assert(s.drop_last()[j] == s[j]);
            }
        }
    }
}

/// Entries have canonical encodings exactly when every key and value
/// does.
pub proof fn lemma_canon_ok_entries(s: Seq<(Model, Model)>)
    ensures
        canon_ok_entries(s) <==> forall|j: int|
            0 <= j < s.len() ==> canon_ok(#[trigger] s[j].0) && canon_ok(s[j].1),
    decreases s.len(),
{
    if s.len() > 0 {
        lemma_canon_ok_entries(s.drop_last());
        if !canon_ok(s.last().0) || !canon_ok(s.last().1) {
            assert(!canon_ok(s[s.len() - 1].0) || !canon_ok(s[s.len() - 1].1));
        }
        if canon_ok_entries(s.drop_last()) && canon_ok(s.last().0) && canon_ok(s.last().1) {
            assert forall|j: int| 0 <= j < s.len() implies canon_ok(#[trigger] s[j].0) && canon_ok(
                s[j].1,
            ) by {
                if j < s.len() - 1 {
                    assert(s.drop_last()[j] == s[j]);
                }
            }
        }
        if forall|j: int| 0 <= j < s.len() ==> canon_ok(#[trigger] s[j].0) && canon_ok(s[j].1) {
            assert forall|j: int| 0 <= j < s.drop_last().len() implies canon_ok(
                #[trigger] s.drop_last()[j].0,
            ) && canon_ok(s.drop_last()[j].1) by {
                assert(s.drop_last()[j] == s[j]);
            }
        }
    }
}

/// Canonicalizing is idempotent on models that have a canonical
/// encoding, and keeps them encodable.
pub proof fn lemma_canon_idempotent(m: Model)
    requires
        canon_ok(m),
    ensures
        canon_ok(canon(m)),
        canon(canon(m)) == canon(m),
        enc(canon(canon(m))) == enc(canon(m)),
    decreases m,
{
    match m {
        Model::Array(items) => {
            lemma_canon_ok_list(items);
            lemma_canon_list(items);
            let c = canon_list(items);
            assert forall|k: int| 0 <= k < c.len() implies canon_ok(#[trigger] c[k]) && canon(c[k])
                == c[k] by {
                lemma_canon_idempotent(items[k]);
            }
            lemma_canon_ok_list(c);
            lemma_canon_list(c);
            assert(canon_list(c) =~= c);
        },
        Model::Dict(es) => {
            lemma_canon_ok_entries(es);
            lemma_canon_keyed(es);
            let ck = canon_keyed(es);
            let s = sort_by_key(ck);
            lemma_sort_sorted(ck);
            let p = payloads(s);
            assert forall|j: int| 0 <= j < s.len() implies #[trigger] s[j] == (
                enc(canon(s[j].1.0)),
                s[j].1,
            ) && canon_ok(s[j].1.0) && canon_ok(s[j].1.1) && canon(s[j].1.0) == s[j].1.0 && canon(
                s[j].1.1,
            ) == s[j].1.1 by {
                lemma_sort_member(ck, j);
                let k = choose|k: int| 0 <= k < ck.len() && ck[k] == s[j];
                assert(ck[k] == (enc(canon(es[k].0)), (canon(es[k].0), canon(es[k].1))));
                lemma_canon_idempotent(es[k].0);
                lemma_canon_idempotent(es[k].1);
            }
            lemma_canon_ok_entries(p);
            lemma_canon_keyed(p);
            assert(canon_keyed(p) =~= s) by {
                assert forall|j: int| 0 <= j < s.len() implies canon_keyed(p)[j] == s[j] by {
                    assert(p[j] == s[j].1);
                }
            }
            lemma_sort_identity(s);
            assert(payloads(s) =~= p);
        },
        _ => {},
    }
}

/// Concatenation of the key bytes and value bytes of keyed byte pairs.
pub open spec fn flat_pairs<K>(s: Seq<(K, (Seq<u8>, Seq<u8>))>) -> Seq<u8>
    decreases s.len(),
{
    if s.len() == 0 {
        Seq::empty()
    } else {
        flat_pairs(s.drop_last()) + s.last().1.0 + s.last().1.1
    }
}

/// The byte pair of an entry: its key's and its value's encodings.
pub open spec fn enc_pair(p: (Model, Model)) -> (Seq<u8>, Seq<u8>) {
    (enc(p.0), enc(p.1))
}

pub proof fn lemma_flat_pairs_enc_entries(s: Seq<(Seq<u8>, (Model, Model))>)
    ensures
        flat_pairs(map_payload(s, enc_pair_fn())) == enc_entries(payloads(s)),
    decreases s.len(),
{
    let f = enc_pair_fn();
    if s.len() > 0 {
        assert(map_payload(s, f).drop_last() =~= map_payload(s.drop_last(), f));
        assert(payloads(s).drop_last() =~= payloads(s.drop_last()));
        lemma_flat_pairs_enc_entries(s.drop_last());
    } else {
        assert(payloads(s) =~= Seq::<(Model, Model)>::empty());
    }
}

/// Adjacent strict order in a sequence gives strict order between any
/// two positions.
pub proof fn lemma_chain<T>(s: Seq<(Seq<u8>, T)>, i: int, j: int)
    requires
        forall|k: int| 0 <= k < s.len() - 1 ==> lex_lt(#[trigger] s[k].0, s[k + 1].0),
        0 <= i < j < s.len(),
    ensures
        lex_lt(s[i].0, s[j].0),
    decreases j - i,
{
    if j > i + 1 {
        lemma_chain(s, i, j - 1);
        lemma_lex_transitive(s[i].0, s[j - 1].0, s[j].0);
    }
}

pub proof fn lemma_adjacent_strict<T>(s: Seq<(Seq<u8>, T)>)
    requires
        forall|k: int| 0 <= k < s.len() - 1 ==> lex_lt(#[trigger] s[k].0, s[k + 1].0),
    ensures
        strictly_increasing(s),
{
    assert forall|i: int, j: int| 0 <= i < j < s.len() implies lex_lt(
        #[trigger] s[i].0,
        #[trigger] s[j].0,
    ) by {
        lemma_chain(s, i, j);
    }
}

/// The full view of entries keyed by owned bytes with owned byte pairs.
pub open spec fn pair_view(s: Seq<(Vec<u8>, (Vec<u8>, Vec<u8>))>) -> Seq<(Seq<u8>, (Seq<u8>, Seq<u8>))> {
    s.map_values(|x: (Vec<u8>, (Vec<u8>, Vec<u8>))| (x.0@, (x.1.0@, x.1.1@)))
}

// ---------------------------------------------------------------------
// Canonical encoding
// ---------------------------------------------------------------------

/// Write a CBOR head (major type + argument) in shortest form.
pub fn write_head(out: &mut Vec<u8>, major: u8, arg: u64)
    requires
        major < 8,
    ensures
        final(out)@ == old(out)@ + head(major, arg),
{
    let top: u8 = major * 32;
    if arg < 24 {
        out.push(top + arg as u8);
        assert(final(out)@ =~= old(out)@ + head(major, arg));
    } else if arg <= 0xff {
        out.push(top + 24);
        out.push(arg as u8);
        assert(final(out)@ =~= old(out)@ + head(major, arg));
    } else if arg <= 0xffff {
        out.push(top + 25);
        out.push((arg / 0x100) as u8);
        out.push((arg % 0x100) as u8);
        assert(final(out)@ =~= old(out)@ + head(major, arg));
    } else if arg <= 0xffff_ffff {
        out.push(top + 26);
        out.push((arg / 0x1000000) as u8);
        out.push(((arg / 0x10000) % 0x100) as u8);
        out.push(((arg / 0x100) % 0x100) as u8);
        out.push((arg % 0x100) as u8);
        assert(final(out)@ =~= old(out)@ + head(major, arg));
    } else {
        out.push(top + 27);
        out.push((arg / 0x100000000000000) as u8);
        out.push(((arg / 0x1000000000000) % 0x100) as u8);
        out.push(((arg / 0x10000000000) % 0x100) as u8);
        out.push(((arg / 0x100000000) % 0x100) as u8);
        out.push(((arg / 0x1000000) % 0x100) as u8);
        out.push(((arg / 0x10000) % 0x100) as u8);
        out.push(((arg / 0x100) % 0x100) as u8);
        out.push((arg % 0x100) as u8);
        assert(final(out)@ =~= old(out)@ + head(major, arg));
    }
}

/// Append the canonical encoding of `v` to `out`.
#[verifier::loop_isolation(false)]
fn encode_value(v: &Value, out: &mut Vec<u8>) -> (res: Result<(), Error>)
    ensures
        res is Ok ==> canon_ok(v@) && final(out)@ == old(out)@ + enc(canon(v@)),
        res is Err ==> !canon_ok(v@),
        res matches Err(e) ==> e == Error::Cbor("duplicate map key"),
    decreases v,
{
    match v {
        Value::Uint(n) => {
            write_head(out, 0, *n);
            Ok(())
        },
        Value::Nint(n) => {
            write_head(out, 1, *n);
            Ok(())
        },
        Value::Bytes(b) => {
            write_head(out, 2, b.len() as u64);
            extend_bytes(out, b.as_slice());
            assert(final(out)@ =~= old(out)@ + enc(canon(v@)));
            Ok(())
        },
        Value::Text(s) => {
            let bytes = string_bytes(s);
            write_head(out, 3, bytes.len() as u64);
            extend_bytes(out, bytes);
            assert(final(out)@ =~= old(out)@ + enc(canon(v@)));
            Ok(())
        },
        Value::Array(items) => {
            proof {
                assert(decreases_to!(*v => *items));
            }
            encode_items(items, out)
        },
        Value::Dict(entries) => {
            proof {
                assert(decreases_to!(*v => *entries));
            }
            match encode_entry_pairs(entries) {
                Ok(pairs) => write_map(pairs, out, Ghost(model_entries(entries@))),
                Err(e) => Err(e),
            }
        },
        Value::Bool(b) => {
            out.push(if *b { 0xf5 } else { 0xf4 });
            assert(final(out)@ =~= old(out)@ + enc(canon(v@)));
            Ok(())
        },
        Value::Null => {
            out.push(0xf6);
            assert(final(out)@ =~= old(out)@ + enc(canon(v@)));
            Ok(())
        },
    }
}


/// Append the canonical encoding of an array to `out`.
#[verifier::loop_isolation(false)]
fn encode_items(items: &Vec<Value>, out: &mut Vec<u8>) -> (res: Result<(), Error>)
    ensures
        res is Ok ==> canon_ok(Model::Array(model_list(items@))) && final(out)@ == old(out)@ + enc(
            canon(Model::Array(model_list(items@))),
        ),
        res is Err ==> !canon_ok(Model::Array(model_list(items@))),
        res matches Err(e) ==> e == Error::Cbor("duplicate map key"),
    decreases items,
{
    proof {
        lemma_model_list(items@);
        lemma_canon_list(model_list(items@));
    }
    write_head(out, 4, items.len() as u64);
    let ghost base = out@;
    let mut i: usize = 0;
    while i < items.len()
        invariant
            i <= items.len(),
            canon_ok_list(model_list(items@.take(i as int))),
            out@ == base + enc_list(canon_list(model_list(items@.take(i as int)))),
        decreases items.len() - i,
    {
        proof {
            assert(decreases_to!(*items => items@[i as int]));
        }
        let r = encode_value(&items[i], out);
        if r.is_err() {
            proof {
                lemma_canon_ok_list(model_list(items@));
                assert(model_list(items@)[i as int] == model(items@[i as int]));
            }
            return Err(Error::Cbor("duplicate map key"));
        }
        proof {
            let t = items@.take(i + 1);
            assert(t.drop_last() =~= items@.take(i as int));
            let ml = model_list(t);
            assert(ml.drop_last() == model_list(items@.take(i as int)));
            assert(canon_list(ml).drop_last() =~= canon_list(model_list(items@.take(i as int))));
        }
        i = i + 1;
    }
    assert(items@.take(items.len() as int) =~= items@);
    assert(final(out)@ =~= old(out)@ + enc(canon(Model::Array(model_list(items@)))));
    Ok(())
}

/// The byte pair of an entry, as a function value.
pub open spec fn enc_pair_fn() -> spec_fn((Model, Model)) -> (Seq<u8>, Seq<u8>) {
    |p: (Model, Model)| enc_pair(p)
}

/// The view of a pair of owned byte vectors, as a function value.
pub open spec fn bytes_pair_fn() -> spec_fn((Vec<u8>, Vec<u8>)) -> (Seq<u8>, Seq<u8>) {
    |t: (Vec<u8>, Vec<u8>)| (t.0@, t.1@)
}

/// Encode every key and value of a map canonically, keeping entry
/// order; each entry is keyed by a copy of its key bytes.
#[verifier::loop_isolation(false)]
fn encode_entry_pairs(entries: &Vec<(Value, Value)>) -> (res: Result<
    Vec<(Vec<u8>, (Vec<u8>, Vec<u8>))>,
    Error,
>)
    ensures
        res matches Ok(pairs) ==> canon_ok_entries(model_entries(entries@)) && pair_view(pairs@)
            == map_payload(canon_keyed(model_entries(entries@)), enc_pair_fn()),
        res is Err ==> !canon_ok_entries(model_entries(entries@)),
        res matches Err(e) ==> e == Error::Cbor("duplicate map key"),
    decreases entries,
{
    let ghost es = model_entries(entries@);
    proof {
        lemma_model_entries(entries@);
    }
    let mut pairs: Vec<(Vec<u8>, (Vec<u8>, Vec<u8>))> = Vec::new();
    let mut i: usize = 0;
    while i < entries.len()
        invariant
            i <= entries.len(),
            es == model_entries(entries@),
            canon_ok_entries(model_entries(entries@.take(i as int))),
            pair_view(pairs@) == map_payload(
                canon_keyed(model_entries(entries@.take(i as int))),
                enc_pair_fn(),
            ),
        decreases entries.len() - i,
    {
        proof {
            assert(decreases_to!(*entries => entries@[i as int].0));
            assert(decreases_to!(*entries => entries@[i as int].1));
        }
        let mut kbuf: Vec<u8> = Vec::new();
        let rk = encode_value(&entries[i].0, &mut kbuf);
        if rk.is_err() {
            proof {
                lemma_canon_ok_entries(es);
                assert(es[i as int] == (model(entries@[i as int].0), model(entries@[i as int].1)));
                assert(!canon_ok(es[i as int].0));
            }
            return Err(Error::Cbor("duplicate map key"));
        }
        let mut vbuf: Vec<u8> = Vec::new();
        let rv = encode_value(&entries[i].1, &mut vbuf);
        if rv.is_err() {
            proof {
                lemma_canon_ok_entries(es);
                assert(es[i as int] == (model(entries@[i as int].0), model(entries@[i as int].1)));
                assert(es[i as int].0 == model(entries@[i as int].0));
                assert(es[i as int].1 == model(entries@[i as int].1));
                assert(!canon_ok(es[i as int].1));
            }
            return Err(Error::Cbor("duplicate map key"));
        }
        let kcopy = bytes_to_vec(kbuf.as_slice());
        let ghost old_pairs = pairs@;
        pairs.push((kcopy, (kbuf, vbuf)));
        proof {
            let t = entries@.take(i + 1);
            assert(t.drop_last() =~= entries@.take(i as int));
            assert(t.last() == entries@[i as int]);
            let me = model_entries(t);
            assert(me.last() == (model(entries@[i as int].0), model(entries@[i as int].1)));
            assert(me.drop_last() == model_entries(entries@.take(i as int)));
            let ck = canon_keyed(me);
            assert(ck.drop_last() == canon_keyed(model_entries(entries@.take(i as int))));
            assert(ck.last() == (enc(canon(me.last().0)), (canon(me.last().0), canon(me.last().1))));
            assert(pair_view(pairs@) =~= pair_view(old_pairs).push(
                (kbuf@, (kbuf@, vbuf@)),
            ));
            assert(map_payload(ck, enc_pair_fn()) =~= map_payload(ck.drop_last(), enc_pair_fn()).push(
                (ck.last().0, enc_pair(ck.last().1)),
            ));
        }
        i = i + 1;
    }
    proof {
        assert(entries@.take(entries.len() as int) =~= entries@);
    }
    Ok(pairs)
}

/// Append the canonical encoding of a map, given its entries' encoded
/// byte pairs: entries sorted by their encoded keys, duplicates
/// rejected.
fn write_map(
    pairs: Vec<(Vec<u8>, (Vec<u8>, Vec<u8>))>,
    out: &mut Vec<u8>,
    Ghost(es): Ghost<Seq<(Model, Model)>>,
) -> (res: Result<(), Error>)
    requires
        canon_ok_entries(es),
        pair_view(pairs@) == map_payload(canon_keyed(es), enc_pair_fn()),
    ensures
        res is Ok ==> canon_ok(Model::Dict(es)) && final(out)@ == old(out)@ + enc(
            canon(Model::Dict(es)),
        ),
        res is Err ==> !canon_ok(Model::Dict(es)),
        res matches Err(e) ==> e == Error::Cbor("duplicate map key"),
{
    let ghost f = enc_pair_fn();
    proof {
        lemma_canon_keyed(es);
    }
    let ghost kv = key_view(pairs@);
    let sorted = sort_entries(pairs);
    let ghost bv = bytes_pair_fn();
    let ghost s_sorted = sort_by_key(canon_keyed(es));
    proof {
        assert(pair_view(pairs@) =~= map_payload(kv, bv));
        assert(pair_view(sorted@) =~= map_payload(key_view(sorted@), bv));
        lemma_sort_map_payload(kv, bv);
        lemma_sort_map_payload(canon_keyed(es), f);
        lemma_sort_sorted(canon_keyed(es));
        assert(pair_view(sorted@) == map_payload(s_sorted, f));
    }
    let mut j: usize = 1;
    while j < sorted.len()
        invariant
            1 <= j,
            s_sorted == sort_by_key(canon_keyed(es)),
            pair_view(sorted@) == map_payload(s_sorted, f),
            s_sorted.len() == sorted@.len(),
            sorted_by_key(s_sorted),
            forall|k: int| 0 <= k < j - 1 ==> lex_lt(#[trigger] s_sorted[k].0, s_sorted[k + 1].0),
        decreases sorted.len() - j,
    {
        let same = bytes_eq(sorted[j - 1].0.as_slice(), sorted[j].0.as_slice());
        proof {
            assert(pair_view(sorted@)[j - 1].0 == s_sorted[j - 1].0);
            assert(pair_view(sorted@)[j as int].0 == s_sorted[j as int].0);
            lemma_lex_total(s_sorted[j - 1].0, s_sorted[j as int].0);
        }
        if same {
            proof {
                lemma_lex_irreflexive(s_sorted[j as int].0);
                assert(!strictly_increasing(s_sorted));
                assert(!canon_ok(Model::Dict(es)));
            }
            return Err(Error::Cbor("duplicate map key"));
        }
        j = j + 1;
    }
    proof {
        lemma_adjacent_strict(s_sorted);
    }
    write_head(out, 5, sorted.len() as u64);
    let ghost base = out@;
    let mut k: usize = 0;
    while k < sorted.len()
        invariant
            k <= sorted.len(),
            out@ == base + flat_pairs(pair_view(sorted@).take(k as int)),
        decreases sorted.len() - k,
    {
        extend_bytes(out, sorted[k].1.0.as_slice());
        extend_bytes(out, sorted[k].1.1.as_slice());
        proof {
            let t = pair_view(sorted@).take(k + 1);
            assert(t.drop_last() =~= pair_view(sorted@).take(k as int));
        }
        k = k + 1;
    }
    proof {
        assert(pair_view(sorted@).take(sorted.len() as int) =~= pair_view(sorted@));
        lemma_flat_pairs_enc_entries(s_sorted);
        assert(payloads(s_sorted).len() == s_sorted.len());
    }
    assert(final(out)@ =~= old(out)@ + enc(canon(Model::Dict(es))));
    Ok(())
}

/// Encode canonically: every map's entries sorted by the bytewise order
/// of their canonically encoded keys. Errors (`Error::Cbor`) when some
/// map has two keys with the same canonical encoding.
pub fn encode_canonical(v: &Value) -> (res: Result<Vec<u8>, Error>)
    ensures
        res matches Ok(b) ==> spec_encode_canonical(v@) == Some(b@),
        res is Err ==> spec_encode_canonical(v@) is None,
        res matches Err(e) ==> e == Error::Cbor("duplicate map key"),
{
    let mut out: Vec<u8> = Vec::new();
    match encode_value(v, &mut out) {
        Ok(()) => {
            assert(out@ =~= enc(canon(v@)));
            Ok(out)
        },
        Err(e) => Err(e),
    }
}

} // verus!
