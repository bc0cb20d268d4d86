//! Frames read back as written: the value a frame is encoded as is
//! already canonical, the strict frame decoder accepts it, and it stands
//! for that frame again. With the contracts of `encode` (the bytes of
//! the canonical form) and `decode` (the frame of any decodable value
//! those bytes encode), decoding an encoded frame gives the frame.

use vstd::prelude::*;
use vstd::utf8::{encode_utf8, is_ascii_chars, is_ascii_chars_encode_utf8};
use crate::codec::{Model, enc};
use crate::order::{lex_lt, lemma_lex_transitive, sort_by_key, payloads, strictly_increasing, lemma_sort_identity};
use crate::decode::keys_ascending;
use crate::filter::{
    FilterModel, key_kinds, key_authors, key_refs, key_ids, key_since, key_limit, filter_entries, fe_ids, fe_refs,
    fe_kinds, fe_limit, fe_since, filter_of, hashes_ok, lemma_filter_round_trip, uint_models, bytes_models,
};
use crate::frames::{
    fcanon, fcanon_list, fcanon_keyed, fdecodable, client_frame_of, client_frame_value, relay_frame_of,
    relay_frame_value, ClientFrameModel, RelayFrameModel, sub_id_of, tag_req, tag_close, tag_pub, tag_rec, tag_eose,
    tag_ok, tag_closed, client_frame_error, FrameError, MAX_SUB_ID_BYTES,
};

verus! {

/// The encoding of a short ASCII text: its length byte, then its bytes.
proof fn lemma_text_enc(t: Seq<char>)
    requires
        0 < t.len() < 24,
        is_ascii_chars(t),
    ensures
        enc(Model::Text(t)).len() == t.len() + 1,
        enc(Model::Text(t))[0] == (96 + t.len()) as u8,
        forall|i: int| 0 <= i < t.len() ==> enc(Model::Text(t))[i + 1] == t[i] as u8,
{
    is_ascii_chars_encode_utf8(t);
    let e = enc(Model::Text(t));
    assert(e == seq![(96 + t.len()) as u8] + encode_utf8(t));
    assert forall|i: int| 0 <= i < t.len() implies e[i + 1] == t[i] as u8 by {
        assert(e[i + 1] == encode_utf8(t)[i]);
    }
}

proof fn lemma_ascii(t: Seq<char>)
    requires
        forall|i: int| 0 <= i < t.len() ==> 'a' <= #[trigger] t[i] <= 'z',
    ensures
        is_ascii_chars(t),
{
}

/// The encoded filter keys in their canonical order: ids, refs, kinds,
/// limit, since, authors.
proof fn lemma_key_order()
    ensures
        lex_lt(enc(Model::Text(key_ids())), enc(Model::Text(key_refs()))),
        lex_lt(enc(Model::Text(key_ids())), enc(Model::Text(key_kinds()))),
        lex_lt(enc(Model::Text(key_ids())), enc(Model::Text(key_limit()))),
        lex_lt(enc(Model::Text(key_ids())), enc(Model::Text(key_since()))),
        lex_lt(enc(Model::Text(key_ids())), enc(Model::Text(key_authors()))),
        lex_lt(enc(Model::Text(key_refs())), enc(Model::Text(key_kinds()))),
        lex_lt(enc(Model::Text(key_refs())), enc(Model::Text(key_limit()))),
        lex_lt(enc(Model::Text(key_refs())), enc(Model::Text(key_since()))),
        lex_lt(enc(Model::Text(key_refs())), enc(Model::Text(key_authors()))),
        lex_lt(enc(Model::Text(key_kinds())), enc(Model::Text(key_limit()))),
        lex_lt(enc(Model::Text(key_kinds())), enc(Model::Text(key_since()))),
        lex_lt(enc(Model::Text(key_kinds())), enc(Model::Text(key_authors()))),
        lex_lt(enc(Model::Text(key_limit())), enc(Model::Text(key_since()))),
        lex_lt(enc(Model::Text(key_limit())), enc(Model::Text(key_authors()))),
        lex_lt(enc(Model::Text(key_since())), enc(Model::Text(key_authors()))),
{
    let ids = enc(Model::Text(key_ids()));
    let refs = enc(Model::Text(key_refs()));
    let kinds = enc(Model::Text(key_kinds()));
    let limit = enc(Model::Text(key_limit()));
    let since = enc(Model::Text(key_since()));
    let authors = enc(Model::Text(key_authors()));
    lemma_ascii(key_ids());
    lemma_ascii(key_refs());
    lemma_ascii(key_kinds());
    lemma_ascii(key_limit());
    lemma_ascii(key_since());
    lemma_ascii(key_authors());
    lemma_text_enc(key_ids());
    lemma_text_enc(key_refs());
    lemma_text_enc(key_kinds());
    lemma_text_enc(key_limit());
    lemma_text_enc(key_since());
    lemma_text_enc(key_authors());
    assert(lex_lt(ids, refs));
    assert(lex_lt(refs, kinds));
    assert(kinds[1] == key_kinds()[0] as u8);
    assert(limit[1] == key_limit()[0] as u8);
    assert(since[1] == key_since()[0] as u8);
    assert(kinds.drop_first()[0] == kinds[1]);
    assert(limit.drop_first()[0] == limit[1]);
    assert(since.drop_first()[0] == since[1]);
    assert(lex_lt(kinds.drop_first(), limit.drop_first()));
    assert(lex_lt(kinds, limit));
    assert(lex_lt(limit.drop_first(), since.drop_first()));
    assert(lex_lt(limit, since));
    assert(lex_lt(since, authors));
    lemma_lex_transitive(ids, refs, kinds);
    lemma_lex_transitive(ids, kinds, limit);
    lemma_lex_transitive(ids, limit, since);
    lemma_lex_transitive(ids, since, authors);
    lemma_lex_transitive(refs, kinds, limit);
    lemma_lex_transitive(refs, limit, since);
    lemma_lex_transitive(refs, since, authors);
    lemma_lex_transitive(kinds, limit, since);
    lemma_lex_transitive(kinds, since, authors);
    lemma_lex_transitive(limit, since, authors);
}

/// Every key of `es` encodes below `k`.
pub open spec fn keys_below(es: Seq<(Model, Model)>, k: Model) -> bool {
    forall|i: int| 0 <= i < es.len() ==> lex_lt(enc(#[trigger] es[i].0), enc(k))
}

proof fn lemma_push_ascending(es: Seq<(Model, Model)>, e: (Model, Model))
    requires
        keys_ascending(es),
        keys_below(es, e.0),
    ensures
        keys_ascending(es.push(e)),
{
    let r = es.push(e);
    assert forall|i: int, j: int| 0 <= i < j < r.len() implies lex_lt(enc(#[trigger] r[i].0), enc(#[trigger] r[j].0)) by {
        if j == es.len() {
            assert(r[i] == es[i]);
        } else {
            assert(r[i] == es[i] && r[j] == es[j]);
        }
    }
}

/// The entries a filter is written as are in canonical key order.
proof fn lemma_filter_keys_ascending(f: FilterModel)
    ensures
        keys_ascending(filter_entries(f)),
{
    lemma_key_order();
    let ids = Model::Text(key_ids());
    let refs = Model::Text(key_refs());
    let kinds = Model::Text(key_kinds());
    let limit = Model::Text(key_limit());
    let since = Model::Text(key_since());
    let authors = Model::Text(key_authors());
    let e1 = fe_ids(f);
    assert(keys_ascending(e1));
    assert(forall|i: int| 0 <= i < e1.len() ==> #[trigger] e1[i].0 == ids);
    let e2 = fe_refs(f);
    if f.refs is Some {
        lemma_push_ascending(e1, e2.last());
    }
    assert(forall|i: int| 0 <= i < e2.len() ==> #[trigger] e2[i].0 == ids || e2[i].0 == refs) by {
        assert forall|i: int| 0 <= i < e2.len() implies #[trigger] e2[i].0 == ids || e2[i].0 == refs by {
            if i < e1.len() {
                assert(e2[i] == e1[i]);
            }
        }
    }
    let e3 = fe_kinds(f);
    if f.kinds is Some {
        lemma_push_ascending(e2, e3.last());
    }
    assert(forall|i: int| 0 <= i < e3.len() ==> #[trigger] e3[i].0 == ids || e3[i].0 == refs || e3[i].0 == kinds) by {
        assert forall|i: int| 0 <= i < e3.len() implies #[trigger] e3[i].0 == ids || e3[i].0 == refs || e3[i].0
            == kinds by {
            if i < e2.len() {
                assert(e3[i] == e2[i]);
            }
        }
    }
    let e4 = fe_limit(f);
    if f.limit is Some {
        lemma_push_ascending(e3, e4.last());
    }
    assert(forall|i: int|
        0 <= i < e4.len() ==> #[trigger] e4[i].0 == ids || e4[i].0 == refs || e4[i].0 == kinds || e4[i].0 == limit) by {
        assert forall|i: int| 0 <= i < e4.len() implies #[trigger] e4[i].0 == ids || e4[i].0 == refs || e4[i].0
            == kinds || e4[i].0 == limit by {
            if i < e3.len() {
                assert(e4[i] == e3[i]);
            }
        }
    }
    let e5 = fe_since(f);
    if f.since is Some {
        lemma_push_ascending(e4, e5.last());
    }
    assert(forall|i: int|
        0 <= i < e5.len() ==> #[trigger] e5[i].0 == ids || e5[i].0 == refs || e5[i].0 == kinds || e5[i].0 == limit
            || e5[i].0 == since) by {
        assert forall|i: int| 0 <= i < e5.len() implies #[trigger] e5[i].0 == ids || e5[i].0 == refs || e5[i].0
            == kinds || e5[i].0 == limit || e5[i].0 == since by {
            if i < e4.len() {
                assert(e5[i] == e4[i]);
            }
        }
    }
    if f.authors is Some {
        lemma_push_ascending(e5, filter_entries(f).last());
    }
}

/// A model whose canonical form is itself: no map below it, or maps
/// already in canonical order.
proof fn lemma_fcanon_list_id(s: Seq<Model>)
    requires
        forall|i: int| 0 <= i < s.len() ==> fcanon(#[trigger] s[i]) == s[i],
    ensures
        fcanon_list(s) == s,
    decreases s.len(),
{
    if s.len() > 0 {
        lemma_fcanon_list_id(s.drop_last());
        assert(fcanon_list(s) =~= s);
    }
}

proof fn lemma_fcanon_keyed_id(es: Seq<(Model, Model)>)
    requires
        forall|i: int| 0 <= i < es.len() ==> fcanon(#[trigger] es[i].0) == es[i].0 && fcanon(es[i].1) == es[i].1,
    ensures
        fcanon_keyed(es) == Seq::new(es.len(), |i: int| (enc(es[i].0), es[i])),
    decreases es.len(),
{
    if es.len() > 0 {
        lemma_fcanon_keyed_id(es.drop_last());
        assert(fcanon_keyed(es) =~= Seq::new(es.len(), |i: int| (enc(es[i].0), es[i])));
    }
}

/// A filter's value lists: numbers, and hashes of 32 bytes, each list
/// of a length a CBOR head can state.
pub open spec fn filter_sized(f: FilterModel) -> bool {
    &&& hashes_ok(f)
    &&& (f.kinds matches Some(l) ==> l.len() <= u64::MAX)
    &&& (f.authors matches Some(l) ==> l.len() <= u64::MAX)
    &&& (f.refs matches Some(l) ==> l.len() <= u64::MAX)
    &&& (f.ids matches Some(l) ==> l.len() <= u64::MAX)
}

proof fn lemma_list_values(f: FilterModel)
    requires
        filter_sized(f),
    ensures
        forall|i: int|
            0 <= i < filter_entries(f).len() ==> fcanon(#[trigger] filter_entries(f)[i].0) == filter_entries(f)[i].0
                && fcanon(filter_entries(f)[i].1) == filter_entries(f)[i].1 && fdecodable(filter_entries(f)[i].0)
                && fdecodable(filter_entries(f)[i].1),
{
    let es = filter_entries(f);
    assert forall|i: int| 0 <= i < es.len() implies fcanon(#[trigger] es[i].0) == es[i].0 && fcanon(es[i].1)
        == es[i].1 && fdecodable(es[i].0) && fdecodable(es[i].1) by {
        lemma_entry_value(f, i);
    }
}

proof fn lemma_uint_list(l: Seq<u64>)
    requires
        l.len() <= u64::MAX,
    ensures
        fcanon(Model::Array(uint_models(l))) == Model::Array(uint_models(l)),
        fdecodable(Model::Array(uint_models(l))),
{
    let s = uint_models(l);
    lemma_fcanon_list_id(s);
    assert forall|i: int| 0 <= i < s.len() implies fdecodable(#[trigger] s[i]) by {
        assert(s[i] == Model::Uint(l[i]));
    }
}

proof fn lemma_hash_list(l: Seq<Seq<u8>>)
    requires
        l.len() <= u64::MAX,
        forall|i: int| 0 <= i < l.len() ==> (#[trigger] l[i]).len() == 32,
    ensures
        fcanon(Model::Array(bytes_models(l))) == Model::Array(bytes_models(l)),
        fdecodable(Model::Array(bytes_models(l))),
{
    let s = bytes_models(l);
    lemma_fcanon_list_id(s);
    assert forall|i: int| 0 <= i < s.len() implies fdecodable(#[trigger] s[i]) by {
        assert(s[i] == Model::Bytes(l[i]));
    }
}

proof fn lemma_entry_value(f: FilterModel, i: int)
    requires
        filter_sized(f),
        0 <= i < filter_entries(f).len(),
    ensures
        fcanon(filter_entries(f)[i].0) == filter_entries(f)[i].0,
        fcanon(filter_entries(f)[i].1) == filter_entries(f)[i].1,
        fdecodable(filter_entries(f)[i].0),
        fdecodable(filter_entries(f)[i].1),
{
    let es = filter_entries(f);
    let e = es[i];
    match f.kinds {
        Some(l) => lemma_uint_list(l),
        None => {},
    }
    match f.authors {
        Some(l) => lemma_hash_list(l),
        None => {},
    }
    match f.refs {
        Some(l) => lemma_hash_list(l),
        None => {},
    }
    match f.ids {
        Some(l) => lemma_hash_list(l),
        None => {},
    }
    lemma_ascii(key_ids());
    lemma_ascii(key_refs());
    lemma_ascii(key_kinds());
    lemma_ascii(key_limit());
    lemma_ascii(key_since());
    lemma_ascii(key_authors());
    is_ascii_chars_encode_utf8(key_ids());
    is_ascii_chars_encode_utf8(key_refs());
    is_ascii_chars_encode_utf8(key_kinds());
    is_ascii_chars_encode_utf8(key_limit());
    is_ascii_chars_encode_utf8(key_since());
    is_ascii_chars_encode_utf8(key_authors());
    let e1 = fe_ids(f);
    let e2 = fe_refs(f);
    let e3 = fe_kinds(f);
    let e4 = fe_limit(f);
    let e5 = fe_since(f);
    if i < e1.len() {
        assert(e == e1[i]);
    } else if i < e2.len() {
        assert(e == e2[i]);
    } else if i < e3.len() {
        assert(e == e3[i]);
    } else if i < e4.len() {
        assert(e == e4[i]);
    } else if i < e5.len() {
        assert(e == e5[i]);
    }
    assert(e2.len() >= e1.len() && e3.len() >= e2.len() && e4.len() >= e3.len() && e5.len() >= e4.len());
    if i < e5.len() {
        assert(i < e1.len() ==> e5[i] == e1[i]);
    }
}

/// The map a filter is written as is canonical and frame-decodable.
proof fn lemma_filter_dict(f: FilterModel)
    requires
        filter_sized(f),
    ensures
        fcanon(Model::Dict(filter_entries(f))) == Model::Dict(filter_entries(f)),
        fdecodable(Model::Dict(filter_entries(f))),
{
    let es = filter_entries(f);
    lemma_list_values(f);
    lemma_filter_keys_ascending(f);
    lemma_fcanon_keyed_id(es);
    let ks = fcanon_keyed(es);
    assert(strictly_increasing(ks)) by {
        assert forall|i: int, j: int| 0 <= i < j < ks.len() implies lex_lt(#[trigger] ks[i].0, #[trigger] ks[j].0) by {
            assert(ks[i].0 == enc(es[i].0));
            assert(ks[j].0 == enc(es[j].0));
        }
    }
    lemma_sort_identity(ks);
    assert(payloads(ks) =~= es);
    assert(es.len() <= 6);
}

/// Tags of different frames differ.
proof fn lemma_tags_distinct()
    ensures
        tag_req() != tag_close(),
        tag_req() != tag_pub(),
        tag_close() != tag_pub(),
        tag_rec() != tag_eose(),
        tag_rec() != tag_ok(),
        tag_rec() != tag_closed(),
        tag_eose() != tag_ok(),
        tag_eose() != tag_closed(),
        tag_ok() != tag_closed(),
{
    assert(tag_req().len() != tag_close().len());
    assert(tag_req()[0] != tag_pub()[0]);
    assert(tag_close().len() != tag_pub().len());
    assert(tag_rec().len() != tag_eose().len());
    assert(tag_rec().len() != tag_ok().len());
    assert(tag_rec().len() != tag_closed().len());
    assert(tag_eose().len() != tag_ok().len());
    assert(tag_eose().len() != tag_closed().len());
    assert(tag_ok().len() != tag_closed().len());
}

proof fn lemma_tag_text(t: Seq<char>)
    requires
        forall|i: int| 0 <= i < t.len() ==> 'A' <= #[trigger] t[i] <= 'Z',
        t.len() < 24,
    ensures
        fcanon(Model::Text(t)) == Model::Text(t),
        fdecodable(Model::Text(t)),
{
    assert(is_ascii_chars(t));
    is_ascii_chars_encode_utf8(t);
}

/// Whether a subscription id can be sent: at most 64 bytes of UTF-8.
pub open spec fn sub_id_ok(t: Seq<char>) -> bool {
    encode_utf8(t).len() <= 64
}

/// A client frame the wire form can carry.
pub open spec fn client_frame_ok(f: ClientFrameModel) -> bool {
    match f {
        ClientFrameModel::Req { sub_id, filter } => sub_id_ok(sub_id) && filter_sized(filter),
        ClientFrameModel::Close { sub_id } => sub_id_ok(sub_id),
        ClientFrameModel::Pub { record, nonce } => record.len() <= u64::MAX,
    }
}

/// A relay frame the wire form can carry.
pub open spec fn relay_frame_ok(f: RelayFrameModel) -> bool {
    match f {
        RelayFrameModel::Rec { sub_id, seq, record } => sub_id_ok(sub_id) && record.len() <= u64::MAX,
        RelayFrameModel::Eose { sub_id } => sub_id_ok(sub_id),
        RelayFrameModel::Ack { id, accepted, reason } => id.len() == 32 && encode_utf8(reason).len() <= u64::MAX,
        RelayFrameModel::Closed { sub_id, reason } => sub_id_ok(sub_id) && encode_utf8(reason).len() <= u64::MAX,
    }
}

/// Client frame round trip: the value a client frame is written as is
/// canonical and frame-decodable, and stands for that frame again.
pub proof fn lemma_client_frame_round_trip(f: ClientFrameModel)
    requires
        client_frame_ok(f),
    ensures
        fcanon(client_frame_value(f)) == client_frame_value(f),
        fdecodable(client_frame_value(f)),
        client_frame_of(client_frame_value(f)) == Some(f),
{
    let v = client_frame_value(f);
    let items = v->Array_0;
    lemma_tags_distinct();
    match f {
        ClientFrameModel::Req { sub_id, filter } => {
            lemma_tag_text(tag_req());
            lemma_filter_dict(filter);
            lemma_filter_round_trip(filter);
            assert(sub_id_of(Model::Text(sub_id)) == Some(sub_id));
            assert(fdecodable(items[0]) && fdecodable(items[1]) && fdecodable(items[2]));
        },
        ClientFrameModel::Close { sub_id } => {
            lemma_tag_text(tag_close());
            assert(fdecodable(items[0]) && fdecodable(items[1]));
        },
        ClientFrameModel::Pub { record, nonce } => {
            lemma_tag_text(tag_pub());
            assert(fdecodable(items[0]) && fdecodable(items[1]) && fdecodable(items[2]));
        },
    }
    assert(forall|i: int| 0 <= i < items.len() ==> fdecodable(#[trigger] items[i]));
    lemma_fcanon_list_id(items);
    assert(fcanon(v) == v);
}

/// Relay frame round trip: the value a relay frame is written as is
/// canonical and frame-decodable, and stands for that frame again.
pub proof fn lemma_relay_frame_round_trip(f: RelayFrameModel)
    requires
        relay_frame_ok(f),
    ensures
        fcanon(relay_frame_value(f)) == relay_frame_value(f),
        fdecodable(relay_frame_value(f)),
        relay_frame_of(relay_frame_value(f)) == Some(f),
{
    let v = relay_frame_value(f);
    let items = v->Array_0;
    lemma_tags_distinct();
    match f {
        RelayFrameModel::Rec { sub_id, seq, record } => {
            lemma_tag_text(tag_rec());
            assert(fdecodable(items[0]) && fdecodable(items[1]) && fdecodable(items[2]) && fdecodable(items[3]));
        },
        RelayFrameModel::Eose { sub_id } => {
            lemma_tag_text(tag_eose());
            assert(fdecodable(items[0]) && fdecodable(items[1]));
        },
        RelayFrameModel::Ack { id, accepted, reason } => {
            lemma_tag_text(tag_ok());
            assert(fdecodable(items[0]) && fdecodable(items[1]) && fdecodable(items[2]) && fdecodable(items[3]));
        },
        RelayFrameModel::Closed { sub_id, reason } => {
            lemma_tag_text(tag_closed());
            assert(fdecodable(items[0]) && fdecodable(items[1]) && fdecodable(items[2]));
        },
    }
    assert(forall|i: int| 0 <= i < items.len() ==> fdecodable(#[trigger] items[i]));
    lemma_fcanon_list_id(items);
    assert(fcanon(v) == v);
}

/// A `REQ` or `CLOSE` frame whose sub_id is longer than 64 bytes but
/// otherwise fits the wire form.
pub open spec fn long_sub_id_frame(f: ClientFrameModel) -> bool {
    match f {
        ClientFrameModel::Req { sub_id, filter } => encode_utf8(sub_id).len() > MAX_SUB_ID_BYTES
            && encode_utf8(sub_id).len() <= u64::MAX && filter_sized(filter),
        ClientFrameModel::Close { sub_id } => encode_utf8(sub_id).len() > MAX_SUB_ID_BYTES
            && encode_utf8(sub_id).len() <= u64::MAX,
        ClientFrameModel::Pub { .. } => false,
    }
}

/// A sub_id over 64 bytes is refused after the round trip: the value
/// such a frame is written as is canonical and frame-decodable, stands
/// for no client frame, and is refused with "sub_id exceeds 64 bytes".
pub proof fn lemma_long_sub_id_refused(f: ClientFrameModel)
    requires
        long_sub_id_frame(f),
    ensures
        fcanon(client_frame_value(f)) == client_frame_value(f),
        fdecodable(client_frame_value(f)),
        client_frame_of(client_frame_value(f)) is None,
        client_frame_error(client_frame_value(f), FrameError::BadShape("sub_id exceeds 64 bytes")),
{
    let v = client_frame_value(f);
    let items = v->Array_0;
    lemma_tags_distinct();
    match f {
        ClientFrameModel::Req { sub_id, filter } => {
            lemma_tag_text(tag_req());
            lemma_filter_dict(filter);
            lemma_filter_round_trip(filter);
            assert(sub_id_of(Model::Text(sub_id)) is None);
            assert(fdecodable(items[0]) && fdecodable(items[1]) && fdecodable(items[2]));
        },
        ClientFrameModel::Close { sub_id } => {
            lemma_tag_text(tag_close());
            assert(sub_id_of(Model::Text(sub_id)) is None);
            assert(fdecodable(items[0]) && fdecodable(items[1]));
        },
        ClientFrameModel::Pub { .. } => {},
    }
    assert(forall|i: int| 0 <= i < items.len() ==> fdecodable(#[trigger] items[i]));
    lemma_fcanon_list_id(items);
    assert(fcanon(v) == v);
}

} // verus!
