//! The record envelope: building, encoding, identifying, and verifying
//! records.

use vstd::prelude::*;
use crate::json::{to_json, from_json, json_of, spec_from_json};
use crate::codec::{Value, Model, model_list, model_entries, enc, canon, canon_ok, spec_encode_canonical, encode_canonical, lemma_model_list, lemma_model_entries, lemma_canon_list, lemma_canon_keyed, lemma_canon_ok_list, lemma_canon_ok_entries, canon_list, canon_keyed, lemma_canon_idempotent};
use crate::access::int_model;
use crate::decode::{decode_canonical, decodable, lemma_decodable_canonical, lemma_decodable_entry, lemma_decodable_sized, cut_short_at, head_noncanonical, unsorted_map_at};
use crate::cbor_lemmas::{lemma_enc_unique, prefix_at};
use crate::order::{lex_lt, strictly_increasing, payloads, lemma_sort_identity};
use crate::crypto::{blake3_hash, blake3_digest, ed25519_verify, ed25519_accepts, ed25519_public_key, ed25519_signature};
use crate::keys::Keypair;
use crate::ids::{IdentityId, RecordId, BlobId};
use crate::error::Error;
use crate::text::bytes_to_vec;

verus! {

/// Registered signature algorithm id for Ed25519.
pub const SIG_ALG_ED25519: u64 = 1;

/// Domain-separation prefix for record signatures: `evermesh:record:v1`.
pub open spec fn sig_prefix() -> Seq<u8> {
    seq![101u8, 118, 101, 114, 109, 101, 115, 104, 58, 114, 101, 99, 111, 114, 100, 58, 118, 49]
}

/// The message a record signature covers: the prefix, then the record id.
pub open spec fn sig_message(id: Seq<u8>) -> Seq<u8> {
    sig_prefix() + id
}

/// Builds the signed message for a record id.
fn signing_message(id: &[u8; 32]) -> (r: Vec<u8>)
    ensures
        r@ == sig_message(id@),
{
    let mut msg: Vec<u8> = vec![
        101u8, 118, 101, 114, 109, 101, 115, 104, 58, 114, 101, 99, 111, 114, 100, 58, 118, 49,
    ];
    let mut i: usize = 0;
    while i < 32
        invariant
            i <= 32,
            id@.len() == 32,
            msg@ == sig_prefix() + id@.subrange(0, i as int),
        decreases 32 - i,
    {
        msg.push(id[i]);
        proof {
            assert(id@.subrange(0, i + 1) =~= id@.subrange(0, i as int).push(id@[i as int]));
        }
        i = i + 1;
    }
    proof {
        assert(id@.subrange(0, 32) =~= id@);
    }
    msg
}

/// A typed reference to a record or a blob.
#[derive(Debug, Clone, Copy, PartialEq, Eq)]
pub struct Ref {
    /// 0 = record, 1 = blob.
    pub ref_type: u64,
    /// The referenced record id or blob id.
    pub hash: [u8; 32],
}

/// The model of a ref: `[ref_type, hash]`.
pub open spec fn ref_model(r: Ref) -> Model {
    Model::Array(seq![Model::Uint(r.ref_type), Model::Bytes(r.hash@)])
}

/// The models of a list of refs.
pub open spec fn refs_model(rs: Seq<Ref>) -> Seq<Model> {
    rs.map_values(|r: Ref| ref_model(r))
}

/// Whether a model is the model of some valid ref (type 0 or 1).
pub open spec fn is_ref_model(m: Model) -> bool {
    exists|r: Ref| r.ref_type <= 1 && ref_model(r) == m
}

impl Ref {
    /// Reference a record.
    pub fn record(id: RecordId) -> (r: Ref)
        ensures
            r.ref_type == 0,
            r.hash == id.0,
    {
        Ref { ref_type: 0, hash: id.0 }
    }

    /// Reference a blob.
    pub fn blob(id: BlobId) -> (r: Ref)
        ensures
            r.ref_type == 1,
            r.hash == id.0,
    {
        Ref { ref_type: 1, hash: id.0 }
    }

    /// True if this is a record reference.
    pub fn is_record(&self) -> (b: bool)
        ensures
            b == (self.ref_type == 0),
    {
        self.ref_type == 0
    }

    /// True if this is a blob reference.
    pub fn is_blob(&self) -> (b: bool)
        ensures
            b == (self.ref_type == 1),
    {
        self.ref_type == 1
    }

    /// The value form `[ref_type, hash]`.
    pub fn to_value(&self) -> (v: Value)
        ensures
            v@ == ref_model(*self),
    {
        let v = Value::Array(vec![Value::Uint(self.ref_type), Value::Bytes(bytes_to_vec(&self.hash))]);
        proof {
            lemma_model_list(v->Array_0@);
            assert(model_list(v->Array_0@) =~= seq![Model::Uint(self.ref_type), Model::Bytes(self.hash@)]);
        }
        v
    }

    /// Parse the value form: an array of a ref type (0 or 1) and a
    /// 32-byte hash; `Err(Envelope)` otherwise.
    pub fn from_value(v: &Value) -> (res: Result<Ref, Error>)
        ensures
            res matches Ok(r) ==> r.ref_type <= 1 && ref_model(r) == v@,
            res is Err <==> !is_ref_model(v@),
            res matches Err(e) ==> e is Envelope,
    {
        let arr = match v.as_array() {
            Some(a) => a,
            None => {
                return Err(Error::Envelope("ref must be an array"));
            },
        };
        proof {
            lemma_model_list(arr@);
        }
        if arr.len() != 2 {
            return Err(Error::Envelope("ref must have exactly 2 elements"));
        }
        let ref_type = match arr[0].as_u64() {
            Some(t) => t,
            None => {
                return Err(Error::Envelope("ref type must be a uint"));
            },
        };
        if ref_type > 1 {
            return Err(Error::Envelope("unknown ref type"));
        }
        let bytes = match arr[1].as_bytes() {
            Some(b) => b,
            None => {
                return Err(Error::Envelope("ref hash must be bytes"));
            },
        };
        if bytes.len() != 32 {
            return Err(Error::Envelope("ref hash must be 32 bytes"));
        }
        let hash = array32(bytes);
        let r = Ref { ref_type, hash };
        proof {
            assert(model_list(arr@) =~= seq![Model::Uint(ref_type), Model::Bytes(hash@)]);
        }
        Ok(r)
    }
}

/// Copies 32 bytes into an array.
pub fn array32(b: &[u8]) -> (r: [u8; 32])
    requires
        b@.len() == 32,
    ensures
        r@ == b@,
{
    let mut out = [0u8; 32];
    let mut i: usize = 0;
    while i < 32
        invariant
            i <= 32,
            b@.len() == 32,
            out@.len() == 32,
            forall|j: int| 0 <= j < i ==> out@[j] == b@[j],
        decreases 32 - i,
    {
        out[i] = b[i];
        i = i + 1;
    }
    assert(out@ =~= b@);
    out
}

/// Copies 64 bytes into an array.
pub fn array64(b: &[u8]) -> (r: [u8; 64])
    requires
        b@.len() == 64,
    ensures
        r@ == b@,
{
    let mut out = [0u8; 64];
    let mut i: usize = 0;
    while i < 64
        invariant
            i <= 64,
            b@.len() == 64,
            out@.len() == 64,
            forall|j: int| 0 <= j < i ==> out@[j] == b@[j],
        decreases 64 - i,
    {
        out[i] = b[i];
        i = i + 1;
    }
    assert(out@ =~= b@);
    out
}

/// Names the author of a record and carries its verification key.
#[derive(Debug, Clone, PartialEq, Eq)]
pub struct IdentityRef {
    /// Stable identity identifier; all-zero in genesis records.
    pub identity_id: IdentityId,
    /// Public key that produced the record's signature.
    pub signing_key: Vec<u8>,
}

/// The model of an author: `[identity_id, signing_key]`.
pub open spec fn author_model(id: Seq<u8>, key: Seq<u8>) -> Model {
    Model::Array(seq![Model::Bytes(id), Model::Bytes(key)])
}

/// The abstract content of a record.
pub struct RecordModel {
    pub kind: u64,
    pub identity_id: Seq<u8>,
    pub signing_key: Seq<u8>,
    pub created_at: i64,
    pub refs: Seq<Ref>,
    pub body: Model,
    pub sig_alg: u64,
    pub sig: Seq<u8>,
}

/// What the envelope parser requires of a record beyond its shape:
/// a 32-byte identity id, refs of type 0 or 1, and a map body.
pub open spec fn model_ok(r: RecordModel) -> bool {
    &&& r.identity_id.len() == 32
    &&& forall|k: int| 0 <= k < r.refs.len() ==> #[trigger] r.refs[k].ref_type <= 1
    &&& r.body is Dict
}

/// The envelope map of a record: keys 1 to 6, and 7 (the signature)
/// when `with_sig`.
pub open spec fn envelope(r: RecordModel, with_sig: bool) -> Model {
    let base = seq![
        (Model::Uint(1), Model::Uint(r.kind)),
        (Model::Uint(2), author_model(r.identity_id, r.signing_key)),
        (Model::Uint(3), int_model(r.created_at as int)),
        (Model::Uint(4), Model::Array(refs_model(r.refs))),
        (Model::Uint(5), r.body),
        (Model::Uint(6), Model::Uint(r.sig_alg)),
    ];
    if with_sig {
        Model::Dict(base.push((Model::Uint(7), Model::Bytes(r.sig))))
    } else {
        Model::Dict(base)
    }
}

/// The record id: BLAKE3-256 over the canonical envelope without the
/// signature.
pub open spec fn spec_record_id(r: RecordModel) -> Seq<u8> {
    blake3_digest(enc(canon(envelope(r, false))))
}

/// Different records have different envelopes.
pub proof fn lemma_envelope_injective(a: RecordModel, b: RecordModel)
    requires
        envelope(a, true) == envelope(b, true),
    ensures
        a == b,
{
    let ea = envelope(a, true)->Dict_0;
    let eb = envelope(b, true)->Dict_0;
    lemma_envelope_parts(a, ea);
    lemma_envelope_parts(b, eb);
    assert(ea[1].1 == eb[1].1);
    assert(author_model(a.identity_id, a.signing_key)->Array_0[0] == author_model(b.identity_id, b.signing_key)->Array_0[0]);
    assert(author_model(a.identity_id, a.signing_key)->Array_0[1] == author_model(b.identity_id, b.signing_key)->Array_0[1]);
    assert(a.identity_id == b.identity_id);
    assert(a.signing_key == b.signing_key);
    assert(ea[2].1 == eb[2].1);
    assert(a.created_at == b.created_at) by {
        if a.created_at >= 0 && b.created_at >= 0 {
        } else if a.created_at < 0 && b.created_at < 0 {
        } else {
        }
    }
    assert(ea[3].1 == eb[3].1);
    let ra = refs_model(a.refs);
    let rb = refs_model(b.refs);
    assert(ra == rb);
    assert(a.refs.len() == b.refs.len()) by {
        assert(ra.len() == a.refs.len() && rb.len() == b.refs.len());
    }
    assert forall|k: int| 0 <= k < a.refs.len() implies a.refs[k] == b.refs[k] by {
        assert(ra[k] == ref_model(a.refs[k]));
        assert(rb[k] == ref_model(b.refs[k]));
        assert(ref_model(a.refs[k])->Array_0[0] == ref_model(b.refs[k])->Array_0[0]);
        assert(ref_model(a.refs[k])->Array_0[1] == ref_model(b.refs[k])->Array_0[1]);
        assert(a.refs[k].hash@ == b.refs[k].hash@);
        assert(a.refs[k].hash =~= b.refs[k].hash);
    }
    assert(a.refs =~= b.refs);
    assert(ea[4].1 == eb[4].1);
    assert(ea[5].1 == eb[5].1);
    assert(ea[6].1 == eb[6].1);
}

/// The record whose wire form is `b`: the record with a well-formed
/// envelope whose canonical encoding is exactly `b` (there is at most
/// one, see [`lemma_record_of_bytes`]).
pub open spec fn record_of_bytes(b: Seq<u8>) -> Option<RecordModel> {
    if exists|r: RecordModel| model_ok(r) && decodable(envelope(r, true), 0) && enc(envelope(r, true)) == b {
        Some(choose|r: RecordModel| model_ok(r) && decodable(envelope(r, true), 0) && enc(envelope(r, true)) == b)
    } else {
        None
    }
}

/// What the error for bytes that are no record says of them: bytes cut
/// short inside a value fail as malformed CBOR, as do bytes left over
/// after one; a first head canonical CBOR never uses, or a map with
/// unsorted keys, fails as non-canonical; a canonical value that is no
/// record envelope fails as an envelope error.
pub open spec fn envelope_error(b: Seq<u8>, e: Error) -> bool {
    &&& (cut_short_at(b, 0, 0) ==> e is Cbor)
    &&& ((exists|m: Model| decodable(m, 0) && #[trigger] prefix_at(enc(m), b, 0) && enc(m).len() < b.len()) ==> e
        == Error::Cbor("trailing bytes after value"))
    &&& (head_noncanonical(b, 0) ==> e is NonCanonical)
    &&& (unsorted_map_at(b, 0, 0) ==> e is NonCanonical)
    &&& ((exists|m: Model| decodable(m, 0) && #[trigger] enc(m) == b) ==> e is Envelope)
}

/// A record's wire form decodes to that record and no other.
pub proof fn lemma_record_of_bytes(b: Seq<u8>, r: RecordModel)
    requires
        model_ok(r),
        decodable(envelope(r, true), 0),
        enc(envelope(r, true)) == b,
    ensures
        record_of_bytes(b) == Some(r),
{
    let c = choose|x: RecordModel| model_ok(x) && decodable(envelope(x, true), 0) && enc(envelope(x, true)) == b;
    lemma_decodable_sized(envelope(r, true), 0);
    lemma_decodable_sized(envelope(c, true), 0);
    assert(b.subrange(0, b.len() as int) =~= b);
    assert(prefix_at(enc(envelope(r, true)), b, 0));
    assert(prefix_at(enc(envelope(c, true)), b, 0));
    lemma_enc_unique(envelope(r, true), envelope(c, true), b, 0);
    lemma_envelope_injective(r, c);
}

/// Whether the record's signature verifies (what `Record::verify` accepts).
pub open spec fn sig_valid(r: RecordModel) -> bool {
    &&& r.sig_alg == SIG_ALG_ED25519
    &&& r.signing_key.len() == 32
    &&& r.sig.len() == 64
    &&& ed25519_accepts(r.signing_key, sig_message(spec_record_id(r)), r.sig)
}

/// The error `Record::verify` reports for a record whose signature
/// does not verify.
pub open spec fn verify_error(r: RecordModel) -> Error {
    if r.sig_alg != SIG_ALG_ED25519 {
        Error::UnknownAlgorithm(r.sig_alg)
    } else {
        Error::Signature
    }
}

/// Every ref model and envelope scalar is already canonical.
proof fn lemma_flat_canonical(m: Model)
    requires
        match m {
            Model::Array(items) => forall|i: int|
                0 <= i < items.len() ==> !(#[trigger] items[i] is Array) && !(items[i] is Dict),
            Model::Dict(_) => false,
            _ => true,
        },
    ensures
        canon_ok(m),
        canon(m) == m,
{
    match m {
        Model::Array(items) => {
            lemma_canon_ok_list(items);
            lemma_canon_list(items);
            assert(canon_list(items) =~= items);
        },
        _ => {},
    }
}

proof fn lemma_refs_canonical(rs: Seq<Ref>)
    ensures
        canon_ok(Model::Array(refs_model(rs))),
        canon(Model::Array(refs_model(rs))) == Model::Array(refs_model(rs)),
{
    let items = refs_model(rs);
    assert forall|i: int| 0 <= i < items.len() implies canon_ok(#[trigger] items[i]) && canon(items[i])
        == items[i] by {
        lemma_flat_canonical(items[i]);
    }
    lemma_canon_ok_list(items);
    lemma_canon_list(items);
    assert(canon_list(items) =~= items);
}

/// The envelope of a record with a canonical map body is canonical.
pub proof fn lemma_envelope_canonical(r: RecordModel, with_sig: bool)
    requires
        r.body is Dict,
        canon_ok(r.body),
        canon(r.body) == r.body,
    ensures
        canon_ok(envelope(r, with_sig)),
        canon(envelope(r, with_sig)) == envelope(r, with_sig),
        spec_encode_canonical(envelope(r, with_sig)) == Some(enc(envelope(r, with_sig))),
{
    let es = envelope(r, with_sig)->Dict_0;
    lemma_flat_canonical(author_model(r.identity_id, r.signing_key));
    lemma_refs_canonical(r.refs);
    assert forall|k: int| 0 <= k < es.len() implies canon_ok(#[trigger] es[k].0) && canon(es[k].0)
        == es[k].0 && canon_ok(es[k].1) && canon(es[k].1) == es[k].1 by {
        if k == 1 {
        } else if k == 3 {
        } else if k == 4 {
        } else {
            lemma_flat_canonical(es[k].1);
        }
    }
    lemma_canon_ok_entries(es);
    lemma_canon_keyed(es);
    let ck = crate::codec::canon_keyed(es);
    assert forall|a: int, b: int| 0 <= a < b < ck.len() implies lex_lt(#[trigger] ck[a].0, #[trigger] ck[b].0) by {
        assert(ck[a].0 == enc(es[a].0));
        assert(ck[b].0 == enc(es[b].0));
        assert(enc(es[a].0) =~= seq![(a + 1) as u8]);
        assert(enc(es[b].0) =~= seq![(b + 1) as u8]);
    }
    lemma_sort_identity(ck);
    assert(payloads(ck) =~= es);
}

/// The entries of an envelope, one by one.
proof fn lemma_envelope_parts(r: RecordModel, es: Seq<(Model, Model)>)
    requires
        es == envelope(r, true)->Dict_0,
    ensures
        es.len() == 7,
        forall|j: int| 0 <= j < 7 ==> #[trigger] es[j].0 == Model::Uint((j + 1) as u64),
        es[0].1 == Model::Uint(r.kind),
        es[1].1 == author_model(r.identity_id, r.signing_key),
        es[2].1 == int_model(r.created_at as int),
        es[3].1 == Model::Array(refs_model(r.refs)),
        es[4].1 == r.body,
        es[5].1 == Model::Uint(r.sig_alg),
        es[6].1 == Model::Bytes(r.sig),
{
    assert(es[0].0 == Model::Uint(1));
    assert(es[1].0 == Model::Uint(2));
    assert(es[2].0 == Model::Uint(3));
    assert(es[3].0 == Model::Uint(4));
    assert(es[4].0 == Model::Uint(5));
    assert(es[5].0 == Model::Uint(6));
    assert(es[6].0 == Model::Uint(7));
}

/// Whether the seven entries have the keys 1 to 7 in order.
fn envelope_keys_ok(map: &[(Value, Value)]) -> (b: bool)
    requires
        map@.len() == 7,
    ensures
        b == forall|j: int| 0 <= j < 7 ==> #[trigger] map@[j].0@ == Model::Uint((j + 1) as u64),
{
    let mut i: usize = 0;
    while i < 7
        invariant
            i <= 7,
            map@.len() == 7,
            forall|j: int| 0 <= j < i ==> #[trigger] map@[j].0@ == Model::Uint((j + 1) as u64),
        decreases 7 - i,
    {
        let ok = match map[i].0.as_u64() {
            Some(k) => k == i as u64 + 1,
            None => false,
        };
        if !ok {
            assert(map@[i as int].0@ != Model::Uint((i + 1) as u64));
            return false;
        }
        i = i + 1;
    }
    true
}

/// The refs listed by an envelope's refs array.
fn refs_from_value(v: &Value) -> (res: Result<Vec<Ref>, Error>)
    ensures
        res matches Ok(rs) ==> v@ == Model::Array(refs_model(rs@)) && forall|k: int|
            0 <= k < rs@.len() ==> #[trigger] rs@[k].ref_type <= 1,
        (exists|rs: Seq<Ref>| v@ == Model::Array(refs_model(rs)) && forall|k: int|
            0 <= k < rs.len() ==> #[trigger] rs[k].ref_type <= 1) ==> res is Ok,
        res matches Err(e) ==> e is Envelope,
{
    let ghost ok = exists|rs: Seq<Ref>| v@ == Model::Array(refs_model(rs)) && forall|k: int|
        0 <= k < rs.len() ==> #[trigger] rs[k].ref_type <= 1;
    let ghost trs = choose|rs: Seq<Ref>| v@ == Model::Array(refs_model(rs)) && forall|k: int|
        0 <= k < rs.len() ==> #[trigger] rs[k].ref_type <= 1;
    let arr = match v.as_array() {
        Some(a) => a,
        None => {
            return Err(Error::Envelope("refs must be an array"));
        },
    };
    proof {
        lemma_model_list(arr@);
        if ok {
            assert(model_list(arr@) == refs_model(trs));
            assert(trs.len() == refs_model(trs).len());
        }
    }
    let mut refs: Vec<Ref> = Vec::new();
    let mut j: usize = 0;
    while j < arr.len()
        invariant
            j <= arr.len(),
            refs.len() == j,
            model_list(arr@).len() == arr@.len(),
            forall|k: int| 0 <= k < arr@.len() ==> #[trigger] model_list(arr@)[k] == arr@[k]@,
            forall|k: int| 0 <= k < j ==> ref_model(#[trigger] refs@[k]) == arr@[k]@ && refs@[k].ref_type <= 1,
            ok ==> model_list(arr@) == refs_model(trs) && trs.len() == arr@.len() && (forall|k: int|
                0 <= k < trs.len() ==> #[trigger] trs[k].ref_type <= 1),
            ok == (exists|rs: Seq<Ref>| v@ == Model::Array(refs_model(rs)) && forall|k: int|
                0 <= k < rs.len() ==> #[trigger] rs[k].ref_type <= 1),
        decreases arr.len() - j,
    {
        proof {
            if ok {
                assert(refs_model(trs)[j as int] == ref_model(trs[j as int]));
                assert(model_list(arr@)[j as int] == ref_model(trs[j as int]));
                assert(trs[j as int].ref_type <= 1);
                assert(ref_model(trs[j as int]) == arr@[j as int]@);
                assert(is_ref_model(arr@[j as int]@));
            }
        }
        let r = match Ref::from_value(&arr[j]) {
            Ok(r) => r,
            Err(e) => {
                return Err(e);
            },
        };
        refs.push(r);
        j = j + 1;
    }
    proof {
        assert forall|k: int| 0 <= k < arr@.len() implies #[trigger] model_list(arr@)[k] == refs_model(refs@)[k] by {
            assert(model_list(arr@)[k] == arr@[k]@);
        }
        assert(model_list(arr@) =~= refs_model(refs@));
    }
    Ok(refs)
}

/// A signed, immutable record.
///
/// Construct with [`RecordBuilder`]; parse untrusted bytes with
/// [`Record::from_cbor`], which enforces canonical encoding and envelope
/// shape but not the signature — call [`Record::verify`] before trusting
/// attribution.
#[derive(Debug, PartialEq, Eq)]
pub struct Record {
    kind: u64,
    author: IdentityRef,
    created_at: i64,
    refs: Vec<Ref>,
    body: Value,
    sig_alg: u64,
    sig: Vec<u8>,
}

impl Clone for Record {
    fn clone(&self) -> (r: Record)
        ensures
            r@ == self@,
    {
        proof {
            use_type_invariant(self);
        }
        Record {
            kind: self.kind,
            author: IdentityRef {
                identity_id: self.author.identity_id,
                signing_key: self.author.signing_key.clone(),
            },
            created_at: self.created_at,
            refs: self.refs.clone(),
            body: self.body.clone(),
            sig_alg: self.sig_alg,
            sig: self.sig.clone(),
        }
    }
}

impl View for Record {
    type V = RecordModel;

    closed spec fn view(&self) -> RecordModel {
        RecordModel {
            kind: self.kind,
            identity_id: self.author.identity_id.0@,
            signing_key: self.author.signing_key@,
            created_at: self.created_at,
            refs: self.refs@,
            body: self.body@,
            sig_alg: self.sig_alg,
            sig: self.sig@,
        }
    }
}

impl Record {
    /// Every record holds a map body already in canonical form.
    #[verifier::type_invariant]
    closed spec fn inv(&self) -> bool {
        &&& self.body@ is Dict
        &&& canon_ok(self.body@)
        &&& canon(self.body@) == self.body@
    }

    /// The record kind.
    pub fn kind(&self) -> (k: u64)
        ensures
            k == self@.kind,
    {
        self.kind
    }

    /// The signing identity reference.
    pub fn author(&self) -> (a: &IdentityRef)
        ensures
            a.identity_id.0@ == self@.identity_id,
            a.signing_key@ == self@.signing_key,
    {
        &self.author
    }

    /// The author's identity id as raw bytes.
    pub fn author_identity_id(&self) -> (id: [u8; 32])
        ensures
            id@ == self@.identity_id,
    {
        self.author.identity_id.0
    }

    /// Author-asserted Unix time in seconds. Untrusted.
    pub fn created_at(&self) -> (t: i64)
        ensures
            t == self@.created_at,
    {
        self.created_at
    }

    /// The ordered refs.
    pub fn refs(&self) -> (r: &[Ref])
        ensures
            r@ == self@.refs,
    {
        self.refs.as_slice()
    }

    /// Hashes of all refs, in order.
    pub fn ref_hashes(&self) -> (h: Vec<[u8; 32]>)
        ensures
            h@.len() == self@.refs.len(),
            forall|i: int| 0 <= i < h@.len() ==> #[trigger] h@[i] == self@.refs[i].hash,
    {
        let mut out: Vec<[u8; 32]> = Vec::new();
        let mut i: usize = 0;
        while i < self.refs.len()
            invariant
                i <= self.refs.len(),
                out@.len() == i,
                forall|j: int| 0 <= j < i ==> #[trigger] out@[j] == self.refs@[j].hash,
            decreases self.refs.len() - i,
        {
            out.push(self.refs[i].hash);
            i = i + 1;
        }
        out
    }

    /// The kind-defined body map.
    pub fn body(&self) -> (b: &Value)
        ensures
            b@ == self@.body,
    {
        &self.body
    }

    /// The signature algorithm id.
    pub fn sig_alg(&self) -> (a: u64)
        ensures
            a == self@.sig_alg,
    {
        self.sig_alg
    }

    /// The raw signature bytes.
    pub fn sig(&self) -> (s: &[u8])
        ensures
            s@ == self@.sig,
    {
        self.sig.as_slice()
    }

    fn refs_value(&self) -> (v: Value)
        ensures
            v@ == Model::Array(refs_model(self@.refs)),
    {
        let mut items: Vec<Value> = Vec::new();
        let mut i: usize = 0;
        while i < self.refs.len()
            invariant
                i <= self.refs.len(),
                items.len() == i,
                forall|j: int| 0 <= j < i ==> #[trigger] items@[j]@ == ref_model(self.refs@[j]),
            decreases self.refs.len() - i,
        {
            items.push(self.refs[i].to_value());
            i = i + 1;
        }
        proof {
            lemma_model_list(items@);
            assert forall|j: int| 0 <= j < items@.len() implies #[trigger] model_list(items@)[j]
                == refs_model(self.refs@)[j] by {
                assert(model_list(items@)[j] == items@[j]@);
            }
            assert(model_list(items@) =~= refs_model(self.refs@));
        }
        Value::Array(items)
    }

    fn author_value(&self) -> (v: Value)
        ensures
            v@ == author_model(self@.identity_id, self@.signing_key),
    {
        let v = Value::Array(vec![Value::Bytes(bytes_to_vec(&self.author.identity_id.0)), Value::Bytes(self.author.signing_key.clone())]);
        proof {
            lemma_model_list(v->Array_0@);
            assert(model_list(v->Array_0@) =~= seq![Model::Bytes(self.author.identity_id.0@), Model::Bytes(self.author.signing_key@)]);
        }
        v
    }

    /// The envelope value, with or without the signature entry.
    pub fn to_value(&self, with_sig: bool) -> (v: Value)
        ensures
            v@ == envelope(self@, with_sig),
    {
        let mut entries: Vec<(Value, Value)> = Vec::new();
        entries.push((Value::Uint(1), Value::Uint(self.kind)));
        entries.push((Value::Uint(2), self.author_value()));
        entries.push((Value::Uint(3), Value::from_i64(self.created_at)));
        entries.push((Value::Uint(4), self.refs_value()));
        entries.push((Value::Uint(5), self.body.clone()));
        entries.push((Value::Uint(6), Value::Uint(self.sig_alg)));
        if with_sig {
            entries.push((Value::Uint(7), Value::Bytes(self.sig.clone())));
        }
        proof {
            lemma_model_entries(entries@);
            assert(model_entries(entries@) =~= envelope(self@, with_sig)->Dict_0);
        }
        Value::Dict(entries)
    }

    /// The record identifier: BLAKE3-256 over the canonical envelope
    /// without the signature.
    pub fn id(&self) -> (id: RecordId)
        ensures
            id.0@ == spec_record_id(self@),
    {
        proof {
            use_type_invariant(self);
            lemma_envelope_canonical(self@, false);
        }
        let v = self.to_value(false);
        let bytes = match encode_canonical(&v) {
            Ok(b) => b,
            Err(_) => Vec::new(),
        };
        RecordId(blake3_hash(bytes.as_slice()))
    }

    /// Canonical envelope bytes, signature included (the wire form).
    pub fn to_canonical_cbor(&self) -> (b: Vec<u8>)
        ensures
            b@ == enc(envelope(self@, true)),
    {
        proof {
            use_type_invariant(self);
            lemma_envelope_canonical(self@, true);
        }
        let v = self.to_value(true);
        match encode_canonical(&v) {
            Ok(b) => b,
            Err(_) => Vec::new(),
        }
    }

    /// Parse untrusted bytes: strict canonical decode plus envelope
    /// shape. Does not verify the signature — call [`Record::verify`].
    pub fn from_cbor(bytes: &[u8]) -> (res: Result<Record, Error>)
        ensures
            match record_of_bytes(bytes@) {
                Some(m) => res matches Ok(r) && r@ == m,
                None => res matches Err(e) && envelope_error(bytes@, e),
            },
    {
        let value = match decode_canonical(bytes) {
            Ok(v) => v,
            Err(e) => {
                return Err(e);
            },
        };
        let res = Self::from_value(&value);
        proof {
            if res is Ok {
                lemma_record_of_bytes(bytes@, res->Ok_0@);
            } else if record_of_bytes(bytes@) is Some {
                assert(value@ == envelope(record_of_bytes(bytes@)->Some_0, true));
            }
        }
        res
    }

    /// The JSON interchange form of the signed envelope.
    pub fn to_json(&self) -> (s: String)
        ensures
            s@ == json_of(envelope(self@, true)),
    {
        to_json(&self.to_value(true))
    }

    /// Parse the JSON interchange form by way of canonical CBOR, so that
    /// a record read from JSON meets exactly the rules of one read from
    /// bytes: the JSON value's canonical encoding must be a record's
    /// wire form.
    pub fn from_json(s: &str) -> (res: Result<Record, Error>)
        ensures
            match spec_from_json(s@) {
                Some(m) => match spec_encode_canonical(m) {
                    Some(b) => match record_of_bytes(b) {
                        Some(rm) => res matches Ok(r) && r@ == rm,
                        None => res is Err,
                    },
                    None => res is Err,
                },
                None => res is Err,
            },
    {
        let value = match from_json(s) {
            Ok(v) => v,
            Err(e) => {
                return Err(e);
            },
        };
        let bytes = match encode_canonical(&value) {
            Ok(b) => b,
            Err(e) => {
                return Err(e);
            },
        };
        Self::from_cbor(bytes.as_slice())
    }

    /// The record whose envelope (signature included) is `value`.
    fn from_value(value: &Value) -> (res: Result<Record, Error>)
        requires
            decodable(value@, 0),
        ensures
            res matches Ok(r) ==> model_ok(r@) && envelope(r@, true) == value@,
            (exists|r: RecordModel| model_ok(r) && envelope(r, true) == value@) ==> res is Ok,
            res matches Err(e) ==> e is Envelope,
    {
        let ghost ok = exists|r: RecordModel| model_ok(r) && envelope(r, true) == value@;
        let ghost target = choose|r: RecordModel| model_ok(r) && envelope(r, true) == value@;
        let map = match value.as_map() {
            Some(m) => m,
            None => {
                return Err(Error::Envelope("record must be a map"));
            },
        };
        let ghost es = model_entries(map@);
        proof {
            lemma_model_entries(map@);
            if ok {
                lemma_envelope_parts(target, es);
                assert(target.refs.len() == refs_model(target.refs).len());
            }
        }
        if map.len() != 7 {
            return Err(Error::Envelope("record must have exactly keys 1-7"));
        }
        if !envelope_keys_ok(map) {
            return Err(Error::Envelope("record must have exactly keys 1-7"));
        }
        let kind = match map[0].1.as_u64() {
            Some(k) => k,
            None => {
                return Err(Error::Envelope("kind must be a uint"));
            },
        };
        let author = match Self::author_from_value(&map[1].1) {
            Ok(a) => a,
            Err(e) => {
                return Err(e);
            },
        };
        let created_at = match map[2].1.as_i64() {
            Some(t) => t,
            None => {
                return Err(Error::Envelope("created_at must be an int64"));
            },
        };
        let refs = match refs_from_value(&map[3].1) {
            Ok(r) => r,
            Err(e) => {
                return Err(e);
            },
        };
        let body = map[4].1.clone();
        if body.as_map().is_none() {
            return Err(Error::Envelope("body must be a map"));
        }
        let sig_alg = match map[5].1.as_u64() {
            Some(a) => a,
            None => {
                return Err(Error::Envelope("sig_alg must be a uint"));
            },
        };
        let sig = match map[6].1.as_bytes() {
            Some(s) => bytes_to_vec(s),
            None => {
                return Err(Error::Envelope("sig must be bytes"));
            },
        };
        proof {
            assert(value@ == Model::Dict(es));
            assert(decodable(Model::Dict(es), 0));
            lemma_decodable_entry(es, 0, 4);
            lemma_decodable_canonical(body@, 1);
        }
        let r = Record { kind, author, created_at, refs, body, sig_alg, sig };
        proof {
            let env = envelope(r@, true)->Dict_0;
            lemma_envelope_parts(r@, env);
            assert forall|j: int| 0 <= j < 7 implies #[trigger] es[j] == env[j] by {
                assert(es[j] == (map@[j].0@, map@[j].1@));
            }
            assert(es =~= env);
        }
        Ok(r)
    }

    fn author_from_value(v: &Value) -> (res: Result<IdentityRef, Error>)
        ensures
            res matches Ok(a) ==> author_model(a.identity_id.0@, a.signing_key@) == v@,
            (exists|id: Seq<u8>, key: Seq<u8>| id.len() == 32 && author_model(id, key) == v@) ==> res is Ok,
            res matches Err(e) ==> e is Envelope,
    {
        let arr = match v.as_array() {
            Some(a) => a,
            None => {
                return Err(Error::Envelope("author must be an array"));
            },
        };
        proof {
            lemma_model_list(arr@);
        }
        if arr.len() != 2 {
            return Err(Error::Envelope("author must have exactly 2 elements"));
        }
        let id_bytes = match arr[0].as_bytes() {
            Some(b) => b,
            None => {
                return Err(Error::Envelope("identity id must be bytes"));
            },
        };
        if id_bytes.len() != 32 {
            return Err(Error::Envelope("identity id must be 32 bytes"));
        }
        let key = match arr[1].as_bytes() {
            Some(b) => bytes_to_vec(b),
            None => {
                return Err(Error::Envelope("signing key must be bytes"));
            },
        };
        let a = IdentityRef { identity_id: IdentityId(array32(id_bytes)), signing_key: key };
        proof {
            assert(model_list(arr@) =~= seq![Model::Bytes(a.identity_id.0@), Model::Bytes(a.signing_key@)]);
        }
        Ok(a)
    }

    /// Verify the signature under `sig_alg`: for Ed25519, the signing key
    /// must be 32 bytes, the signature 64 bytes, and strict verification
    /// must accept the signature on the prefixed record id.
    pub fn verify(&self) -> (res: Result<(), Error>)
        ensures
            self@.sig_alg == SIG_ALG_ED25519 ==> (res is Ok <==> (self@.signing_key.len() == 32
                && self@.sig.len() == 64 && ed25519_accepts(
                self@.signing_key,
                sig_message(spec_record_id(self@)),
                self@.sig,
            ))) && (res is Err ==> res == Err::<(), Error>(Error::Signature)),
            self@.sig_alg != SIG_ALG_ED25519 ==> res == Err::<(), Error>(Error::UnknownAlgorithm(self@.sig_alg)),
            res is Ok <==> sig_valid(self@),
            res matches Err(e) ==> e == verify_error(self@),
    {
        if self.sig_alg != SIG_ALG_ED25519 {
            return Err(Error::UnknownAlgorithm(self.sig_alg));
        }
        if self.author.signing_key.len() != 32 {
            return Err(Error::Signature);
        }
        let key = array32(self.author.signing_key.as_slice());
        if self.sig.len() != 64 {
            return Err(Error::Signature);
        }
        let sig = array64(self.sig.as_slice());
        let id = self.id();
        let msg = signing_message(&id.0);
        if ed25519_verify(&key, msg.as_slice(), &sig) {
            Ok(())
        } else {
            Err(Error::Signature)
        }
    }
}

/// The abstract content of a record builder.
pub struct BuilderModel {
    pub kind: u64,
    pub created_at: i64,
    pub refs: Seq<Ref>,
    pub body: Model,
}

/// Builder for signing new records.
#[derive(Debug)]
pub struct RecordBuilder {
    kind: u64,
    created_at: i64,
    refs: Vec<Ref>,
    body: Value,
}

impl View for RecordBuilder {
    type V = BuilderModel;

    closed spec fn view(&self) -> BuilderModel {
        BuilderModel {
            kind: self.kind,
            created_at: self.created_at,
            refs: self.refs@,
            body: self.body@,
        }
    }
}

/// The record a builder signs as `identity` with the secret key `secret`.
pub open spec fn signed_record(b: BuilderModel, secret: Seq<u8>, identity: Seq<u8>) -> RecordModel {
    let unsigned = RecordModel {
        kind: b.kind,
        identity_id: identity,
        signing_key: ed25519_public_key(secret),
        created_at: b.created_at,
        refs: b.refs,
        body: canon(b.body),
        sig_alg: SIG_ALG_ED25519,
        sig: Seq::empty(),
    };
    RecordModel { sig: ed25519_signature(secret, sig_message(spec_record_id(unsigned))), ..unsigned }
}

impl RecordBuilder {
    /// Start a record of the given kind: created at time 0, no refs,
    /// an empty map body.
    pub fn new(kind: u64) -> (r: RecordBuilder)
        ensures
            r@ == (BuilderModel {
                kind,
                created_at: 0,
                refs: Seq::empty(),
                body: Model::Dict(Seq::empty()),
            }),
    {
        let r = RecordBuilder { kind, created_at: 0, refs: Vec::new(), body: Value::Dict(Vec::new()) };
        proof {
            assert(model_entries(Seq::<(Value, Value)>::empty()) =~= Seq::<(Model, Model)>::empty());
            assert(r@.refs =~= Seq::<Ref>::empty());
        }
        r
    }

    /// Set the author-asserted creation time (Unix seconds).
    pub fn created_at(self, t: i64) -> (r: Self)
        ensures
            r@ == (BuilderModel { created_at: t, ..self@ }),
    {
        RecordBuilder { created_at: t, ..self }
    }

    /// Append one ref.
    pub fn add_ref(self, r: Ref) -> (b: Self)
        ensures
            b@ == (BuilderModel { refs: self@.refs.push(r), ..self@ }),
    {
        let mut refs = self.refs;
        refs.push(r);
        RecordBuilder { kind: self.kind, created_at: self.created_at, refs, body: self.body }
    }

    /// Replace the refs list.
    pub fn refs(self, refs: Vec<Ref>) -> (b: Self)
        ensures
            b@ == (BuilderModel { refs: refs@, ..self@ }),
    {
        RecordBuilder { kind: self.kind, created_at: self.created_at, refs, body: self.body }
    }

    /// Set the body. It must be a map for signing to succeed.
    pub fn body(self, body: Value) -> (b: Self)
        ensures
            b@ == (BuilderModel { body: body@, ..self@ }),
    {
        RecordBuilder { kind: self.kind, created_at: self.created_at, refs: self.refs, body }
    }

    /// Sign as the given identity, producing the finished record: its
    /// body is stored in canonical order, and its signature covers the
    /// prefixed record id.
    ///
    /// Fails with `Envelope` if the body is not a map, and with the
    /// encoder's error if the body holds duplicate map keys anywhere.
    pub fn sign_as(self, keypair: &Keypair, identity: IdentityId) -> (res: Result<Record, Error>)
        ensures
            !(self@.body is Dict) ==> res == Err::<Record, Error>(Error::Envelope("body must be a map")),
            self@.body is Dict ==> (res is Ok <==> canon_ok(self@.body)),
            self@.body is Dict && !canon_ok(self@.body) ==> res == Err::<Record, Error>(
                Error::Cbor("duplicate map key"),
            ),
            res matches Ok(r) ==> r@ == signed_record(self@, keypair@, identity.0@),
            res matches Ok(r) ==> (sig_valid(r@) <==> ed25519_accepts(
                ed25519_public_key(keypair@),
                sig_message(spec_record_id(r@)),
                ed25519_signature(keypair@, sig_message(spec_record_id(r@))),
            )),
    {
        if self.body.as_map().is_none() {
            return Err(Error::Envelope("body must be a map"));
        }
        let check = encode_canonical(&self.body);
        let body = self.body.into_canonical();
        match check {
            Err(e) => {
                return Err(e);
            },
            Ok(_) => {},
        }
        proof {
            lemma_canon_idempotent(self@.body);
        }
        let mut record = Record {
            kind: self.kind,
            author: IdentityRef {
                identity_id: identity,
                signing_key: bytes_to_vec(&keypair.public_key_bytes()),
            },
            created_at: self.created_at,
            refs: self.refs,
            body,
            sig_alg: SIG_ALG_ED25519,
            sig: Vec::new(),
        };
        let id = record.id();
        let msg = signing_message(&id.0);
        let sig = keypair.sign(msg.as_slice());
        record.sig = bytes_to_vec(&sig);
        proof {
            assert(record@ == signed_record(self@, keypair@, identity.0@));
        }
        Ok(record)
    }
}

} // verus!
