//! Laws of canonical reordering: what [`Value::into_canonical`] keeps,
//! and that the canonical form decodes back to itself.
//!
//! [`Value::into_canonical`]: crate::codec::Value

use vstd::prelude::*;
use vstd::utf8::encode_utf8;
use crate::codec::{Model, enc, canon, canon_ok, canon_list, canon_keyed, spec_encode_canonical, lemma_canon_list, lemma_canon_keyed, lemma_canon_ok_list, lemma_canon_ok_entries, lemma_canon_idempotent};
use crate::order::{payloads, sort_by_key, insert_by_key, sorted_by_key, strictly_increasing, lemma_sort_sorted, lemma_sort_member, lex_lt, lemma_lex_irreflexive, lemma_lex_transitive, lemma_lex_total};
use crate::codec::canon_ok_entries;
use crate::decode::{decodable, keys_ascending};
use crate::record::{RecordModel, model_ok, envelope, record_of_bytes, lemma_envelope_canonical, lemma_record_of_bytes, refs_model, ref_model};

verus! {

/// Sizes a head can count and nesting at most 64 levels deep, from
/// level `depth` on; map keys may come in any order.
pub open spec fn nested_within(m: Model, depth: int) -> bool
    decreases m,
{
    0 <= depth <= 64 && match m {
        Model::Bytes(b) => b.len() <= u64::MAX,
        Model::Text(t) => encode_utf8(t).len() <= u64::MAX,
        Model::Array(items) => items.len() <= u64::MAX && forall|i: int|
            0 <= i < items.len() ==> nested_within(#[trigger] items[i], depth + 1),
        Model::Dict(es) => es.len() <= u64::MAX && forall|i: int|
            0 <= i < es.len() ==> nested_within(#[trigger] es[i].0, depth + 1) && nested_within(
                es[i].1,
                depth + 1,
            ),
        _ => true,
    }
}

/// The canonical form of a model with a canonical encoding, nested
/// within the limits, is what the strict decoder accepts.
pub proof fn lemma_canon_decodable(m: Model, depth: int)
    requires
        canon_ok(m),
        nested_within(m, depth),
    ensures
        decodable(canon(m), depth),
    decreases m,
{
    match m {
        Model::Array(items) => {
            lemma_canon_ok_list(items);
            lemma_canon_list(items);
            let cs = canon_list(items);
            assert forall|i: int| 0 <= i < cs.len() implies decodable(#[trigger] cs[i], depth + 1) by {
                lemma_canon_decodable(items[i], depth + 1);
            }
        },
        Model::Dict(es) => {
            lemma_canon_ok_entries(es);
            lemma_canon_keyed(es);
            let ck = canon_keyed(es);
            let sorted = sort_by_key(ck);
            let ps = payloads(sorted);
            lemma_sort_sorted(ck);
            assert forall|i: int| 0 <= i < sorted.len() implies #[trigger] sorted[i].0 == enc(sorted[i].1.0)
                && decodable(sorted[i].1.0, depth + 1) && decodable(sorted[i].1.1, depth + 1) by {
                lemma_sort_member(ck, i);
                let k = choose|k: int| 0 <= k < ck.len() && ck[k] == sorted[i];
                assert(canon_ok(es[k].0) && canon_ok(es[k].1));
                lemma_canon_decodable(es[k].0, depth + 1);
                lemma_canon_decodable(es[k].1, depth + 1);
            }
            assert(keys_ascending(ps)) by {
                assert forall|a: int, b: int| 0 <= a < b < ps.len() implies lex_lt(
                    enc(#[trigger] ps[a].0),
                    enc(#[trigger] ps[b].0),
                ) by {
                    assert(ps[a] == sorted[a].1 && ps[b] == sorted[b].1);
                    assert(sorted[a].0 == enc(sorted[a].1.0));
                    assert(sorted[b].0 == enc(sorted[b].1.0));
                }
            }
            assert forall|i: int| 0 <= i < ps.len() implies decodable(#[trigger] ps[i].0, depth + 1)
                && decodable(ps[i].1, depth + 1) by {
                assert(ps[i] == sorted[i].1);
                assert(sorted[i].0 == enc(sorted[i].1.0));
            }
        },
        _ => {},
    }
}

/// Canonical reordering keeps the encoding and is idempotent; a map's
/// canonical form has as many entries as the map, each the canonical
/// form of one of its entries, in strictly ascending order of encoded
/// key; and when the value is nested within the limits, its canonical
/// form is what the strict decoder accepts, with the canonical encoding
/// as its encoding, so decoding that encoding gives the canonical form
/// back.
pub proof fn lemma_into_canonical(m: Model)
    requires
        canon_ok(m),
    ensures
        spec_encode_canonical(canon(m)) == spec_encode_canonical(m),
        canon(canon(m)) == canon(m),
        m matches Model::Dict(es) ==> ({
            let cs = canon(m)->Dict_0;
            &&& cs.len() == es.len()
            &&& forall|i: int| 0 <= i < cs.len() ==> exists|k: int| 0 <= k < es.len()
                && #[trigger] cs[i] == (canon(es[k].0), canon(es[k].1))
            &&& keys_ascending(cs)
        }),
        nested_within(m, 0) ==> decodable(canon(m), 0) && spec_encode_canonical(m) == Some(enc(canon(m))),
{
    lemma_canon_idempotent(m);
    if nested_within(m, 0) {
        lemma_canon_decodable(m, 0);
    }
    if let Model::Dict(es) = m {
        lemma_canon_ok_entries(es);
        lemma_canon_keyed(es);
        let ck = canon_keyed(es);
        let sorted = sort_by_key(ck);
        let cs = payloads(sorted);
        lemma_sort_sorted(ck);
        assert forall|i: int| 0 <= i < sorted.len() implies #[trigger] sorted[i].0 == enc(sorted[i].1.0)
            && exists|k: int| 0 <= k < es.len() && sorted[i].1 == (canon(es[k].0), canon(es[k].1)) by {
            lemma_sort_member(ck, i);
            let k = choose|k: int| 0 <= k < ck.len() && ck[k] == sorted[i];
            assert(canon_ok(es[k].0));
        }
        assert forall|i: int| 0 <= i < cs.len() implies exists|k: int| 0 <= k < es.len()
            && #[trigger] cs[i] == (canon(es[k].0), canon(es[k].1)) by {
            assert(cs[i] == sorted[i].1);
            assert(sorted[i].0 == enc(sorted[i].1.0));
            let k = choose|k: int| 0 <= k < es.len() && sorted[i].1 == (canon(es[k].0), canon(es[k].1));
            assert(cs[i] == (canon(es[k].0), canon(es[k].1)));
        }
        assert(keys_ascending(cs)) by {
            assert forall|a: int, b: int| 0 <= a < b < cs.len() implies lex_lt(
                enc(#[trigger] cs[a].0),
                enc(#[trigger] cs[b].0),
            ) by {
                assert(cs[a] == sorted[a].1 && cs[b] == sorted[b].1);
                assert(sorted[a].0 == enc(sorted[a].1.0));
                assert(sorted[b].0 == enc(sorted[b].1.0));
            }
        }
    }
}

/// Inserting adds the entry to what the sequence holds.
proof fn lemma_insert_multiset<T>(p: (Seq<u8>, T), s: Seq<(Seq<u8>, T)>)
    ensures
        insert_by_key(p, s).to_multiset() =~= s.to_multiset().insert(p),
    decreases s.len(),
{
    broadcast use vstd::seq_lib::group_to_multiset_ensures;

    if s.len() == 0 {
        assert(seq![p] =~= s.push(p));
    } else if lex_lt(p.0, s[0].0) {
        assert(seq![p] + s =~= s.insert(0, p));
    } else {
        let t = s.drop_first();
        lemma_insert_multiset(p, t);
        assert(seq![s[0]] + insert_by_key(p, t) =~= insert_by_key(p, t).insert(0, s[0]));
        assert(s =~= t.insert(0, s[0]));
    }
}

/// Sorting keeps what the sequence holds.
proof fn lemma_sort_multiset<T>(s: Seq<(Seq<u8>, T)>)
    ensures
        sort_by_key(s).to_multiset() =~= s.to_multiset(),
    decreases s.len(),
{
    broadcast use vstd::seq_lib::group_to_multiset_ensures;

    if s.len() > 0 {
        lemma_sort_multiset(s.drop_last());
        lemma_insert_multiset(s.last(), sort_by_key(s.drop_last()));
        assert(s =~= s.drop_last().push(s.last()));
    }
}

/// Sequences holding the same entries hold the same images of them.
proof fn lemma_map_multiset<A, B>(a: Seq<A>, b: Seq<A>, f: spec_fn(A) -> B)
    requires
        a.to_multiset() == b.to_multiset(),
    ensures
        a.map_values(f).to_multiset() =~= b.map_values(f).to_multiset(),
    decreases a.len(),
{
    broadcast use vstd::seq_lib::group_to_multiset_ensures;
    broadcast use vstd::multiset::group_multiset_axioms;

    assert(a.len() == a.to_multiset().len() && b.len() == b.to_multiset().len());
    if a.len() == 0 {
        assert(b.len() == 0);
        assert(a.map_values(f) =~= Seq::<B>::empty());
        assert(b.map_values(f) =~= Seq::<B>::empty());
    } else {
        let x = a.last();
        let a1 = a.drop_last();
        assert(a =~= a1.push(x));
        assert(a.to_multiset().count(x) > 0);
        assert(b.contains(x));
        let j = choose|j: int| 0 <= j < b.len() && b[j] == x;
        let b1 = b.remove(j);
        assert(b1.to_multiset() == b.to_multiset().remove(x));
        assert(a.to_multiset() == a1.to_multiset().insert(x));
        assert(b1.to_multiset() =~= a1.to_multiset());
        lemma_map_multiset(a1, b1, f);
        assert(a.map_values(f) =~= a1.map_values(f).push(f(x)));
        assert(b.map_values(f) =~= b1.map_values(f).insert(j, f(x)));
        assert(b1.map_values(f).insert(j, f(x)).to_multiset() == b1.map_values(f).to_multiset().insert(f(x)));
        assert(a1.map_values(f).push(f(x)).to_multiset() == a1.map_values(f).to_multiset().insert(f(x)));
    }
}

/// Two strictly increasing sequences holding the same entries are
/// the same sequence.
proof fn lemma_strict_unique<T>(a: Seq<(Seq<u8>, T)>, b: Seq<(Seq<u8>, T)>)
    requires
        strictly_increasing(a),
        strictly_increasing(b),
        a.to_multiset() == b.to_multiset(),
    ensures
        a == b,
    decreases a.len(),
{
    broadcast use vstd::seq_lib::group_to_multiset_ensures;
    broadcast use vstd::multiset::group_multiset_axioms;

    assert(a.len() == a.to_multiset().len() && b.len() == b.to_multiset().len());
    if a.len() == 0 {
        assert(b.len() == 0);
        assert(a =~= b);
    } else {
        assert(b.len() == a.len());
        assert(a.to_multiset().count(a[0]) > 0);
        assert(b.contains(a[0]));
        let j = choose|j: int| 0 <= j < b.len() && b[j] == a[0];
        assert(b.to_multiset().count(b[0]) > 0);
        assert(a.contains(b[0]));
        let i = choose|i: int| 0 <= i < a.len() && a[i] == b[0];
        if j > 0 {
            if i == 0 {
                lemma_lex_irreflexive(b[0].0);
                assert(lex_lt(b[0].0, b[j].0));
            } else {
                assert(lex_lt(a[0].0, a[i].0));
                assert(lex_lt(b[0].0, b[j].0));
                lemma_lex_transitive(a[0].0, a[i].0, a[0].0);
                lemma_lex_irreflexive(a[0].0);
            }
        }
        assert(a[0] == b[0]);
        let a1 = a.drop_first();
        let b1 = b.drop_first();
        assert(a =~= a1.insert(0, a[0]));
        assert(b =~= b1.insert(0, b[0]));
        assert(a1.insert(0, a[0]).to_multiset() == a1.to_multiset().insert(a[0]));
        assert(b1.insert(0, b[0]).to_multiset() == b1.to_multiset().insert(b[0]));
        assert forall|y: (Seq<u8>, T)| #[trigger] a1.to_multiset().count(y) == b1.to_multiset().count(y) by {
            assert(a1.to_multiset().insert(a[0]).count(y) == b1.to_multiset().insert(b[0]).count(y));
        }
        assert(a1.to_multiset() =~= b1.to_multiset());
        assert(strictly_increasing(a1)) by {
            assert forall|x: int, y: int| 0 <= x < y < a1.len() implies lex_lt(#[trigger] a1[x].0, #[trigger] a1[y].0) by {
                assert(a1[x] == a[x + 1] && a1[y] == a[y + 1]);
            }
        }
        assert(strictly_increasing(b1)) by {
            assert forall|x: int, y: int| 0 <= x < y < b1.len() implies lex_lt(#[trigger] b1[x].0, #[trigger] b1[y].0) by {
                assert(b1[x] == b[x + 1] && b1[y] == b[y + 1]);
            }
        }
        lemma_strict_unique(a1, b1);
        assert(a =~= b);
    }
}

/// A sequence holding the same entries as a strictly increasing one has
/// no two entries with the same key.
proof fn lemma_keys_distinct<T>(a: Seq<(Seq<u8>, T)>, b: Seq<(Seq<u8>, T)>, x: int, y: int)
    requires
        strictly_increasing(b),
        a.to_multiset() == b.to_multiset(),
        0 <= x < y < a.len(),
    ensures
        a[x].0 != a[y].0,
{
    broadcast use vstd::seq_lib::group_to_multiset_ensures;
    broadcast use vstd::multiset::group_multiset_axioms;

    if a[x].0 == a[y].0 {
        assert(a.to_multiset().count(a[x]) > 0);
        assert(b.contains(a[x]));
        let i = choose|i: int| 0 <= i < b.len() && b[i] == a[x];
        assert(a.to_multiset().count(a[y]) > 0);
        assert(b.contains(a[y]));
        let k = choose|k: int| 0 <= k < b.len() && b[k] == a[y];
        if i == k {
            // The same entry twice in `a`, so twice in `b`.
            let a2 = a.remove(x);
            assert(a2[y - 1] == a[y]);
            assert(a2.contains(a[x]));
            assert(a2.to_multiset().count(a[x]) > 0);
            assert(a.to_multiset().count(a[x]) >= 2);
            let b2 = b.remove(i);
            assert(b2.to_multiset().count(b[i]) > 0);
            assert(b2.contains(b[i]));
            let k2 = choose|k2: int| 0 <= k2 < b2.len() && b2[k2] == b[i];
            let k3 = if k2 < i {
                k2
            } else {
                k2 + 1
            };
            assert(b[k3] == b[i]);
            if k3 < i {
                assert(lex_lt(b[k3].0, b[i].0));
            } else {
                assert(lex_lt(b[i].0, b[k3].0));
            }
            lemma_lex_irreflexive(b[i].0);
        } else if i < k {
            assert(lex_lt(b[i].0, b[k].0));
            lemma_lex_irreflexive(a[x].0);
        } else {
            assert(lex_lt(b[k].0, b[i].0));
            lemma_lex_irreflexive(a[x].0);
        }
    }
}

/// A sorted sequence holding the same entries as a strictly increasing
/// one is strictly increasing too.
proof fn lemma_strict_transfer<T>(a: Seq<(Seq<u8>, T)>, b: Seq<(Seq<u8>, T)>)
    requires
        sorted_by_key(a),
        strictly_increasing(b),
        a.to_multiset() == b.to_multiset(),
    ensures
        strictly_increasing(a),
{
    assert forall|x: int, y: int| 0 <= x < y < a.len() implies lex_lt(#[trigger] a[x].0, #[trigger] a[y].0) by {
        assert(!lex_lt(a[y].0, a[x].0));
        lemma_lex_total(a[x].0, a[y].0);
        lemma_keys_distinct(a, b, x, y);
    }
}

/// The sort keys and canonical forms of map entries.
pub open spec fn keyed_entry(e: (Model, Model)) -> (Seq<u8>, (Model, Model)) {
    (
        if canon_ok(e.0) {
            enc(canon(e.0))
        } else {
            Seq::empty()
        },
        (canon(e.0), canon(e.1)),
    )
}

proof fn lemma_keyed_map(es: Seq<(Model, Model)>)
    ensures
        canon_keyed(es) == es.map_values(|e: (Model, Model)| keyed_entry(e)),
{
    lemma_canon_keyed(es);
    assert(canon_keyed(es) =~= es.map_values(|e: (Model, Model)| keyed_entry(e)));
}

/// The entries of `ps` all have canonical encodings when those of `es`
/// do, for sequences holding the same entries.
proof fn lemma_entries_ok_transfer(es: Seq<(Model, Model)>, ps: Seq<(Model, Model)>)
    requires
        es.to_multiset() == ps.to_multiset(),
        canon_ok_entries(es),
    ensures
        canon_ok_entries(ps),
{
    broadcast use vstd::seq_lib::group_to_multiset_ensures;

    lemma_canon_ok_entries(es);
    lemma_canon_ok_entries(ps);
    assert(forall|i: int| 0 <= i < es.len() ==> canon_ok(#[trigger] es[i].0) && canon_ok(es[i].1));
    assert forall|j: int| 0 <= j < ps.len() implies canon_ok(#[trigger] ps[j].0) && canon_ok(ps[j].1) by {
        assert(ps.to_multiset().count(ps[j]) > 0);
        assert(es.contains(ps[j]));
        let i = choose|i: int| 0 <= i < es.len() && es[i] == ps[j];
        assert(canon_ok(es[i].0));
        assert(canon_ok(es[i].1));
    }
}

/// The canonical encoding of a map does not depend on the order of its
/// entries: two maps holding the same entries, in any order, both have
/// the same canonical encoding or both have none.
pub proof fn lemma_encode_order_free(es: Seq<(Model, Model)>, ps: Seq<(Model, Model)>)
    requires
        es.to_multiset() == ps.to_multiset(),
    ensures
        spec_encode_canonical(Model::Dict(es)) == spec_encode_canonical(Model::Dict(ps)),
{
    lemma_keyed_map(es);
    lemma_keyed_map(ps);
    let ce = canon_keyed(es);
    let cp = canon_keyed(ps);
    lemma_map_multiset(es, ps, |e: (Model, Model)| keyed_entry(e));
    lemma_sort_multiset(ce);
    lemma_sort_multiset(cp);
    lemma_sort_sorted(ce);
    lemma_sort_sorted(cp);
    let s1 = sort_by_key(ce);
    let s2 = sort_by_key(cp);
    if canon_ok_entries(es) {
        lemma_entries_ok_transfer(es, ps);
    }
    if canon_ok_entries(ps) {
        lemma_entries_ok_transfer(ps, es);
    }
    if strictly_increasing(s2) {
        lemma_strict_transfer(s1, s2);
    }
    if strictly_increasing(s1) {
        lemma_strict_transfer(s2, s1);
    }
    if strictly_increasing(s1) && strictly_increasing(s2) {
        lemma_strict_unique(s1, s2);
    }
}

/// Two keys of a map with the same canonical encoding leave the map with
/// no canonical encoding.
pub proof fn lemma_duplicate_key(es: Seq<(Model, Model)>, i: int, j: int)
    requires
        0 <= i < j < es.len(),
        canon_ok(es[i].0),
        canon_ok(es[j].0),
        enc(canon(es[i].0)) == enc(canon(es[j].0)),
    ensures
        spec_encode_canonical(Model::Dict(es)) is None,
{
    lemma_canon_keyed(es);
    let ce = canon_keyed(es);
    lemma_sort_multiset(ce);
    if strictly_increasing(sort_by_key(ce)) {
        lemma_keys_distinct(ce, sort_by_key(ce), i, j);
    }
}

/// What the strict decoder accepts is nested within the limits.
proof fn lemma_decodable_nested(m: Model, depth: int)
    requires
        decodable(m, depth),
    ensures
        nested_within(m, depth),
    decreases m,
{
    match m {
        Model::Array(items) => {
            assert forall|i: int| 0 <= i < items.len() implies nested_within(#[trigger] items[i], depth + 1) by {
                lemma_decodable_nested(items[i], depth + 1);
            }
        },
        Model::Dict(es) => {
            assert forall|i: int| 0 <= i < es.len() implies nested_within(#[trigger] es[i].0, depth + 1)
                && nested_within(es[i].1, depth + 1) by {
                lemma_decodable_nested(es[i].0, depth + 1);
                lemma_decodable_nested(es[i].1, depth + 1);
            }
        },
        _ => {},
    }
}

/// A record whose body the strict decoder accepts one level down reads
/// back from its wire form as itself: the strict decoder accepts its
/// envelope, and the envelope stands for that record alone. (A body
/// signed by `RecordBuilder::sign_as` is the canonical form of the
/// draft's body, which [`lemma_canon_decodable`] shows the decoder
/// accepts when the draft's body is nested within the limits.)
pub proof fn lemma_wire_round_trip(r: RecordModel)
    requires
        model_ok(r),
        decodable(r.body, 1),
        r.signing_key.len() <= u64::MAX,
        r.sig.len() <= u64::MAX,
        r.refs.len() <= u64::MAX,
    ensures
        decodable(envelope(r, true), 0),
        record_of_bytes(enc(envelope(r, true))) == Some(r),
{
    let v = envelope(r, true);
    let es = v->Dict_0;
    crate::decode::lemma_decodable_canonical(r.body, 1);
    lemma_decodable_nested(r.body, 1);
    lemma_envelope_canonical(r, true);
    let rm = refs_model(r.refs);
    assert forall|i: int| 0 <= i < rm.len() implies nested_within(#[trigger] rm[i], 2) by {
        assert(rm[i] == ref_model(r.refs[i]));
        let items = rm[i]->Array_0;
        assert(nested_within(items[0], 3) && nested_within(items[1], 3));
    }
    let au = es[1].1->Array_0;
    assert(nested_within(au[0], 2) && nested_within(au[1], 2));
    assert forall|k: int| 0 <= k < es.len() implies nested_within(#[trigger] es[k].0, 1) && nested_within(es[k].1, 1) by {
        if k == 2 {
            assert(nested_within(es[2].1, 1));
        }
    }
    assert(nested_within(v, 0));
    lemma_canon_decodable(v, 0);
    lemma_record_of_bytes(enc(v), r);
}

} // verus!
