//! Typed accessors on [`Value`], map lookups, and canonical reordering.

use vstd::prelude::*;
use crate::codec::{Value, Model, model, model_list, model_entries, canon, canon_ok, canon_keyed, encode_canonical, spec_encode_canonical, lemma_model_list, lemma_model_entries, lemma_canon_list, lemma_canon_keyed, canon_list};
use crate::order::{payloads, sort_by_key, key_view, map_payload, sort_entries, lemma_sort_map_payload};
use crate::text::str_eq;

verus! {

/// The integer a `Uint` or `Nint` model stands for.
pub open spec fn int_of(m: Model) -> Option<int> {
    match m {
        Model::Uint(n) => Some(n as int),
        Model::Nint(n) => Some(-1 - n as int),
        _ => None,
    }
}

/// The model of a signed integer: `Uint` when non-negative, else `Nint`.
pub open spec fn int_model(x: int) -> Model {
    if x >= 0 {
        Model::Uint(x as u64)
    } else {
        Model::Nint((-1 - x) as u64)
    }
}

/// The value of the first entry whose key is `key`.
pub open spec fn lookup(es: Seq<(Model, Model)>, key: Model) -> Option<Model>
    decreases es.len(),
{
    if es.len() == 0 {
        None
    } else if es[0].0 == key {
        Some(es[0].1)
    } else {
        lookup(es.drop_first(), key)
    }
}

/// The value under `key` when `m` is a map holding that key.
pub open spec fn spec_map_get(m: Model, key: Model) -> Option<Model> {
    match m {
        Model::Dict(es) => lookup(es, key),
        _ => None,
    }
}

/// Pairs of values, seen as pairs of models.
pub open spec fn pair_models(s: Seq<(Value, Value)>) -> Seq<(Model, Model)> {
    s.map_values(|p: (Value, Value)| (p.0@, p.1@))
}

/// The model of an entry pair.
pub open spec fn pair_model_fn() -> spec_fn((Value, Value)) -> (Model, Model) {
    |p: (Value, Value)| (p.0@, p.1@)
}

impl Value {
    /// Build a signed integer value: non-negative values use `Uint`,
    /// negative values use `Nint` (RFC 8949 §3.1).
    pub fn from_i64(v: i64) -> (r: Value)
        ensures
            r@ == int_model(v as int),
            int_of(r@) == Some(v as int),
    {
        if v >= 0 {
            Value::Uint(v as u64)
        } else {
            let n = (-1i128 - v as i128) as u64;
            Value::Nint(n)
        }
    }

    /// This value as `i64`, if it is an integer that fits.
    pub fn as_i64(&self) -> (r: Option<i64>)
        ensures
            r is Some <==> (int_of(self@) matches Some(x) && i64::MIN <= x <= i64::MAX),
            r matches Some(x) ==> int_of(self@) == Some(x as int) && self@ == int_model(x as int),
    {
        match self {
            Value::Uint(v) => {
                if *v <= 0x7fff_ffff_ffff_ffff {
                    Some(*v as i64)
                } else {
                    None
                }
            },
            Value::Nint(n) => {
                if *n <= 0x7fff_ffff_ffff_ffff {
                    Some((-1i128 - *n as i128) as i64)
                } else {
                    None
                }
            },
            _ => None,
        }
    }

    /// This value as `u64`, if it is a `Uint`.
    pub fn as_u64(&self) -> (r: Option<u64>)
        ensures
            r == (match self@ {
                Model::Uint(n) => Some(n),
                _ => None::<u64>,
            }),
    {
        match self {
            Value::Uint(v) => Some(*v),
            _ => None,
        }
    }

    /// This value's bytes, if it is a `Bytes`.
    pub fn as_bytes(&self) -> (r: Option<&[u8]>)
        ensures
            r is Some <==> self@ is Bytes,
            r matches Some(b) ==> self@ == Model::Bytes(b@),
    {
        match self {
            Value::Bytes(b) => Some(b.as_slice()),
            _ => None,
        }
    }

    /// This value's text, if it is a `Text`.
    pub fn as_text(&self) -> (r: Option<&str>)
        ensures
            r is Some <==> self@ is Text,
            r matches Some(t) ==> self@ == Model::Text(t@),
    {
        match self {
            Value::Text(s) => Some(s.as_str()),
            _ => None,
        }
    }

    /// This value's elements, if it is an `Array`.
    pub fn as_array(&self) -> (r: Option<&[Value]>)
        ensures
            r is Some <==> self@ is Array,
            r matches Some(a) ==> self@ == Model::Array(model_list(a@)),
    {
        match self {
            Value::Array(a) => Some(a.as_slice()),
            _ => None,
        }
    }

    /// This value's entries, if it is a map.
    pub fn as_map(&self) -> (r: Option<&[(Value, Value)]>)
        ensures
            r is Some <==> self@ is Dict,
            r matches Some(m) ==> self@ == Model::Dict(model_entries(m@)),
    {
        match self {
            Value::Dict(m) => Some(m.as_slice()),
            _ => None,
        }
    }

    /// This value as `bool`, if it is a `Bool`.
    pub fn as_bool(&self) -> (r: Option<bool>)
        ensures
            r == (match self@ {
                Model::Bool(b) => Some(b),
                _ => None::<bool>,
            }),
    {
        match self {
            Value::Bool(b) => Some(*b),
            _ => None,
        }
    }

    /// Look up a text key in a map: the value of the first entry whose
    /// key is that text. `None` if this is not a map or the key is
    /// absent.
    #[verifier::loop_isolation(false)]
    pub fn map_get(&self, key: &str) -> (r: Option<&Value>)
        ensures
            match r {
                Some(v) => spec_map_get(self@, Model::Text(key@)) == Some(v@),
                None => spec_map_get(self@, Model::Text(key@)) is None,
            },
    {
        match self {
            Value::Dict(entries) => {
                let ghost target = Model::Text(key@);
                let ghost es = model_entries(entries@);
                proof {
                    lemma_model_entries(entries@);
                    assert(es.skip(0) =~= es);
                }
                let mut i: usize = 0;
                while i < entries.len()
                    invariant
                        i <= entries.len(),
                        es == model_entries(entries@),
                        es.len() == entries.len(),
                        forall|j: int|
                            0 <= j < entries.len() ==> #[trigger] es[j] == (
                                entries@[j].0@,
                                entries@[j].1@,
                            ),
                        lookup(es, target) == lookup(es.skip(i as int), target),
                    decreases entries.len() - i,
                {
                    let ghost rest = es.skip(i as int);
                    proof {
                        assert(rest[0] == es[i as int]);
                        assert(rest.drop_first() =~= es.skip(i + 1));
                    }
                    let k = &entries[i].0;
                    let hit = match k {
                        Value::Text(t) => str_eq(t.as_str(), key),
                        _ => false,
                    };
                    if hit {
                        return Some(&entries[i].1);
                    }
                    i = i + 1;
                }
                None
            },
            _ => None,
        }
    }

    /// Look up an unsigned-integer key in a map. `None` if this is not a
    /// map or the key is absent.
    #[verifier::loop_isolation(false)]
    pub fn map_get_int(&self, key: u64) -> (r: Option<&Value>)
        ensures
            match r {
                Some(v) => spec_map_get(self@, Model::Uint(key)) == Some(v@),
                None => spec_map_get(self@, Model::Uint(key)) is None,
            },
    {
        match self {
            Value::Dict(entries) => {
                let ghost target = Model::Uint(key);
                let ghost es = model_entries(entries@);
                proof {
                    lemma_model_entries(entries@);
                    assert(es.skip(0) =~= es);
                }
                let mut i: usize = 0;
                while i < entries.len()
                    invariant
                        i <= entries.len(),
                        es == model_entries(entries@),
                        es.len() == entries.len(),
                        forall|j: int|
                            0 <= j < entries.len() ==> #[trigger] es[j] == (
                                entries@[j].0@,
                                entries@[j].1@,
                            ),
                        lookup(es, target) == lookup(es.skip(i as int), target),
                    decreases entries.len() - i,
                {
                    let ghost rest = es.skip(i as int);
                    proof {
                        assert(rest[0] == es[i as int]);
                        assert(rest.drop_first() =~= es.skip(i + 1));
                    }
                    let hit = match &entries[i].0 {
                        Value::Uint(n) => *n == key,
                        _ => false,
                    };
                    if hit {
                        return Some(&entries[i].1);
                    }
                    i = i + 1;
                }
                None
            },
            _ => None,
        }
    }

    /// This value with every nested map's entries reordered into
    /// canonical order: sorted (stably) by the bytewise order of their
    /// canonically encoded keys. Only the order changes; a key with no
    /// canonical encoding sorts as the empty byte string.
    pub fn into_canonical(self) -> (r: Value)
        ensures
            r@ == canon(self@),
    {
        canonical_of(&self)
    }
}

/// The canonical reordering of a value (see [`Value::into_canonical`]).
#[verifier::loop_isolation(false)]
fn canonical_of(v: &Value) -> (r: Value)
    ensures
        r@ == canon(v@),
    decreases v,
{
    match v {
        Value::Array(items) => {
            let mut out: Vec<Value> = Vec::new();
            let mut i: usize = 0;
            proof {
                lemma_model_list(items@);
                lemma_canon_list(model_list(items@));
            }
            while i < items.len()
                invariant
                    i <= items.len(),
                    out.len() == i,
                    model_list(items@).len() == items.len(),
                    forall|j: int| 0 <= j < items.len() ==> #[trigger] model_list(items@)[j] == items@[j]@,
                    canon_list(model_list(items@)).len() == items.len(),
                    forall|j: int| 0 <= j < items.len() ==> #[trigger] canon_list(model_list(items@))[j] == canon(model_list(items@)[j]),
                    forall|j: int| 0 <= j < i ==> #[trigger] out@[j]@ == canon(items@[j]@),
                decreases items.len() - i,
            {
                proof {
                    assert(decreases_to!(*v => items@[i as int]));
                }
                let c = canonical_of(&items[i]);
                out.push(c);
                i = i + 1;
            }
            proof {
                lemma_model_list(out@);
                assert forall|j: int| 0 <= j < items.len() implies #[trigger] model_list(out@)[j]
                    == canon_list(model_list(items@))[j] by {
                    assert(model_list(out@)[j] == out@[j]@);
                    assert(canon_list(model_list(items@))[j] == canon(model_list(items@)[j]));
                }
                assert(model_list(out@) =~= canon_list(model_list(items@)));
            }
            Value::Array(out)
        },
        Value::Dict(entries) => {
            let ghost es = model_entries(entries@);
            proof {
                lemma_model_entries(entries@);
                lemma_canon_keyed(es);
            }
            let mut keyed: Vec<(Vec<u8>, (Value, Value))> = Vec::new();
            let mut i: usize = 0;
            while i < entries.len()
                invariant
                    i <= entries.len(),
                    keyed.len() == i,
                    es == model_entries(entries@),
                    es.len() == entries.len(),
                    forall|j: int|
                        0 <= j < entries.len() ==> #[trigger] es[j] == (
                            entries@[j].0@,
                            entries@[j].1@,
                        ),
                    canon_keyed(es).len() == es.len(),
                    forall|j: int|
                        0 <= j < es.len() ==> #[trigger] canon_keyed(es)[j] == (
                            if canon_ok(es[j].0) {
                                crate::codec::enc(canon(es[j].0))
                            } else {
                                Seq::<u8>::empty()
                            },
                            (canon(es[j].0), canon(es[j].1)),
                        ),
                    forall|j: int|
                        0 <= j < i ==> (#[trigger] keyed@[j]).0@ == canon_keyed(es)[j].0 && (
                        keyed@[j].1.0@, keyed@[j].1.1@) == canon_keyed(es)[j].1,
                decreases entries.len() - i,
            {
                proof {
                    assert(decreases_to!(*v => entries@[i as int].0));
                    assert(decreases_to!(*v => entries@[i as int].1));
                }
                let kb = match encode_canonical(&entries[i].0) {
                    Ok(b) => b,
                    Err(_) => Vec::new(),
                };
                let ck = canonical_of(&entries[i].0);
                let cv = canonical_of(&entries[i].1);
                proof {
                    assert(kb@ == canon_keyed(es)[i as int].0);
                }
                keyed.push((kb, (ck, cv)));
                i = i + 1;
            }
            let ghost before = keyed@;
            let sorted = sort_entries(keyed);
            let ghost f = pair_model_fn();
            proof {
                assert(map_payload(key_view(before), f) =~= canon_keyed(es));
                lemma_sort_map_payload(key_view(before), f);
            }
            let mut out: Vec<(Value, Value)> = Vec::new();
            let mut j: usize = 0;
            let ghost target = payloads(sort_by_key(canon_keyed(es)));
            proof {
                assert(target =~= payloads(map_payload(key_view(sorted@), f)));
            }
            while j < sorted.len()
                invariant
                    j <= sorted.len(),
                    out.len() == j,
                    target == payloads(map_payload(key_view(sorted@), f)),
                    f == pair_model_fn(),
                    forall|k: int| 0 <= k < j ==> (#[trigger] out@[k]).0@ == target[k].0 && out@[k].1@ == target[k].1,
                decreases sorted.len() - j,
            {
                let (a, b) = &sorted[j].1;
                let pa = a.deep_clone();
                let pb = b.deep_clone();
                out.push((pa, pb));
                j = j + 1;
            }
            proof {
                lemma_model_entries(out@);
                assert(model_entries(out@) =~= target);
            }
            Value::Dict(out)
        },
        Value::Uint(n) => Value::Uint(*n),
        Value::Nint(n) => Value::Nint(*n),
        Value::Bytes(b) => Value::Bytes(b.clone()),
        Value::Text(s) => Value::Text(s.clone()),
        Value::Bool(b) => Value::Bool(*b),
        Value::Null => Value::Null,
    }
}

} // verus!
