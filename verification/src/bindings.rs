//! A plain-value interface over the kernel for foreign runtimes (the
//! JavaScript package binds these one for one).
//!
//! Records cross as canonical CBOR bytes; structured values (bodies,
//! refs, recovery sets, identity states) cross as JSON interchange
//! text; ids and keys cross as byte strings and are checked for length
//! here.

use vstd::prelude::*;
use crate::error::{Error, error_text};
use crate::codec::{Model, Value, enc, spec_encode_canonical, canon_ok, model_list, lemma_model_list};
use crate::json::{json_of, spec_from_json, from_json};
use crate::record::{Record, RecordModel, RecordBuilder, BuilderModel, Ref, record_of_bytes, sig_valid, spec_record_id, verify_error, envelope, signed_record, SIG_ALG_ED25519};
use crate::identity::{Identity, IdentityState, StateModel, AlgKey, RotationModel, alg_keys, rotation_value, rotation_record, zero32, chain_result, record_models, verify_chain_observed};
use crate::ids::{IdentityId, RecordId, BlobId, spec_hex, hex_bytes};
use crate::json::{dec_digits, decimal, chars_to_string};
use crate::blob::{digests, climb, leaf_digest, blob_leaves, root_of, chunk_count, chunk_of, leaf_hash, reduce_level, lemma_reduce_len, CHUNK_SIZE};
use crate::kinds::content::statement_model;
use crate::kinds::{derivation_statement, DERIVATION_SIG_PREFIX};
use vstd::slice::slice_subrange;
use crate::keys::Keypair;
use crate::crypto::{ed25519_public_key, ed25519_signature, blake3_digest, blake3_hash, hasher_input, hasher_new, hasher_update, hasher_digest};
use crate::blob;
use crate::kinds::{validate, kind_valid};
use crate::text::{bytes_to_vec, concat, extend_bytes};
use crate::kinds::fields::own;

verus! {

/// Why a call failed: the kernel refused, or an argument has the wrong
/// shape.
#[derive(Debug, Clone, PartialEq, Eq)]
pub enum BindingError {
    Kernel(Error),
    Argument(&'static str),
}

impl BindingError {
    /// A human-readable description.
    pub fn message(&self) -> (s: String)
        ensures
            s@ == match *self {
                BindingError::Kernel(e) => error_text(e),
                BindingError::Argument(m) => m@,
            },
    {
        match self {
            BindingError::Kernel(e) => e.message(),
            BindingError::Argument(m) => own(*m),
        }
    }
}

/// Exactly 32 bytes, or the argument error `what`.
fn take32(bytes: &[u8], what: &'static str) -> (res: Result<[u8; 32], BindingError>)
    ensures
        bytes@.len() == 32 ==> (res matches Ok(a) && a@ == bytes@),
        bytes@.len() != 32 ==> res == Err::<[u8; 32], BindingError>(BindingError::Argument(what)),
{
    if bytes.len() != 32 {
        return Err(BindingError::Argument(what));
    }
    Ok(crate::record::array32(bytes))
}

/// The record whose canonical bytes these are, or the kernel's refusal.
fn parse(record: &[u8]) -> (res: Result<Record, BindingError>)
    ensures
        match record_of_bytes(record@) {
            Some(m) => res matches Ok(r) && r@ == m,
            None => res matches Err(BindingError::Kernel(_)),
        },
{
    match Record::from_cbor(record) {
        Ok(r) => Ok(r),
        Err(e) => Err(BindingError::Kernel(e)),
    }
}

/// A record's id from its canonical bytes (the envelope's shape and
/// canonical form are checked, not the signature).
pub fn record_id(record: &[u8]) -> (res: Result<Vec<u8>, BindingError>)
    ensures
        match record_of_bytes(record@) {
            Some(m) => res matches Ok(v) && v@ == spec_record_id(m),
            None => res matches Err(BindingError::Kernel(_)),
        },
{
    let r = parse(record)?;
    Ok(bytes_to_vec(&r.id().0))
}

/// Full envelope verification: canonical decode and signature.
pub fn verify_record(record: &[u8]) -> (res: Result<(), BindingError>)
    ensures
        match record_of_bytes(record@) {
            Some(m) => if sig_valid(m) {
                res is Ok
            } else {
                res == Err::<(), BindingError>(BindingError::Kernel(verify_error(m)))
            },
            None => res matches Err(BindingError::Kernel(_)),
        },
{
    let r = parse(record)?;
    match r.verify() {
        Ok(()) => Ok(()),
        Err(e) => Err(BindingError::Kernel(e)),
    }
}

/// Kind-level validation of a record's body (unknown kinds pass).
pub fn validate_kind(record: &[u8]) -> (res: Result<(), BindingError>)
    ensures
        match record_of_bytes(record@) {
            Some(m) => (res is Ok <==> kind_valid(m)) && (res matches Err(BindingError::Kernel(e)) ==> e is Kind)
                && !(res matches Err(BindingError::Argument(_))),
            None => res matches Err(BindingError::Kernel(_)),
        },
{
    let r = parse(record)?;
    match validate(&r) {
        Ok(()) => Ok(()),
        Err(e) => Err(BindingError::Kernel(e)),
    }
}

/// Canonical bytes to the JSON interchange form.
pub fn record_to_json(record: &[u8]) -> (res: Result<String, BindingError>)
    ensures
        match record_of_bytes(record@) {
            Some(m) => res matches Ok(s) && s@ == json_of(envelope(m, true)),
            None => res matches Err(BindingError::Kernel(_)),
        },
{
    let r = parse(record)?;
    Ok(r.to_json())
}

/// The canonical bytes a JSON text stands for, when they are a record's.
pub open spec fn json_record_bytes(json: Seq<char>) -> Option<Seq<u8>> {
    match spec_from_json(json) {
        Some(m) => match spec_encode_canonical(m) {
            Some(b) => if record_of_bytes(b) is Some {
                Some(b)
            } else {
                None
            },
            None => None,
        },
        None => None,
    }
}

/// The JSON interchange form to canonical bytes, held to exactly the
/// rules of bytes read directly.
pub fn record_from_json(json: &str) -> (res: Result<Vec<u8>, BindingError>)
    ensures
        match json_record_bytes(json@) {
            Some(b) => res matches Ok(v) && v@ == b,
            None => res matches Err(BindingError::Kernel(_)),
        },
{
    let r = match Record::from_json(json) {
        Ok(r) => r,
        Err(e) => {
            return Err(BindingError::Kernel(e));
        },
    };
    let b = r.to_canonical_cbor();
    Ok(b)
}

/// BLAKE3-256 of a complete in-memory blob.
pub fn hash_blob(bytes: &[u8]) -> (v: Vec<u8>)
    ensures
        v@ == blake3_digest(bytes@),
{
    bytes_to_vec(&blob::hash_blob(bytes).0)
}

/// An Ed25519 keypair held for a foreign caller.
pub struct WasmKeypair {
    inner: Keypair,
}

impl View for WasmKeypair {
    type V = Seq<u8>;

    /// The secret bytes.
    closed spec fn view(&self) -> Seq<u8> {
        self.inner@
    }
}

impl WasmKeypair {
    /// Generate from the system's randomness.
    pub fn generate() -> (res: Result<WasmKeypair, BindingError>)
        ensures
            res matches Ok(k) ==> k@.len() == 32,
            res matches Err(e) ==> e == BindingError::Kernel(Error::Io("rng unavailable")),
    {
        match Keypair::generate() {
            Ok(k) => Ok(WasmKeypair { inner: k }),
            Err(e) => Err(BindingError::Kernel(e)),
        }
    }

    /// Restore from 32 secret bytes.
    pub fn from_secret(secret: &[u8]) -> (res: Result<WasmKeypair, BindingError>)
        ensures
            secret@.len() == 32 ==> (res matches Ok(k) && k@ == secret@),
            secret@.len() != 32 ==> res == Err::<WasmKeypair, BindingError>(BindingError::Argument("secret must be exactly 32 bytes")),
    {
        let s = take32(secret, "secret must be exactly 32 bytes")?;
        Ok(WasmKeypair { inner: Keypair::from_secret_bytes(&s) })
    }

    /// The 32-byte public key.
    pub fn public_key(&self) -> (v: Vec<u8>)
        ensures
            v@ == ed25519_public_key(self@),
    {
        bytes_to_vec(&self.inner.public_key_bytes())
    }

    /// The 32 secret bytes. Handle with care.
    pub fn secret(&self) -> (v: Vec<u8>)
        ensures
            v@ == self@,
    {
        bytes_to_vec(&self.inner.secret_bytes())
    }
}

/// A pair read from a JSON list entry: a number and a byte string.
pub type Pair = (u64, Seq<u8>);

/// A ref given as `[type, hash]`, or why it is refused.
pub open spec fn ref_entry(m: Model) -> Result<Pair, BindingError> {
    match m {
        Model::Array(p) => if p.len() != 2 {
            Err(BindingError::Argument("each ref must be [type, hash]"))
        } else if !(p[0] is Uint) || p[0]->Uint_0 > 1 {
            Err(BindingError::Argument("ref type must be 0 or 1"))
        } else if !(p[1] is Bytes) {
            Err(BindingError::Argument("ref hash must be hex bytes"))
        } else if p[1]->Bytes_0.len() != 32 {
            Err(BindingError::Argument("ref hash must be exactly 32 bytes"))
        } else {
            Ok((p[0]->Uint_0, p[1]->Bytes_0))
        },
        _ => Err(BindingError::Argument("each ref must be [type, hash]")),
    }
}

/// A recovery key given as `[alg, key]`, or why it is refused.
pub open spec fn recovery_entry(m: Model) -> Result<Pair, BindingError> {
    match m {
        Model::Array(p) => if p.len() != 2 {
            Err(BindingError::Argument("each recovery entry must be [alg, key]"))
        } else if !(p[0] is Uint) {
            Err(BindingError::Argument("recovery alg must be a number"))
        } else if !(p[1] is Bytes) {
            Err(BindingError::Argument("recovery key must be hex bytes"))
        } else {
            Ok((p[0]->Uint_0, p[1]->Bytes_0))
        },
        _ => Err(BindingError::Argument("each recovery entry must be [alg, key]")),
    }
}

/// An entry read as a ref when `refs`, else as a recovery key.
pub open spec fn pair_entry(refs: bool, m: Model) -> Result<Pair, BindingError> {
    if refs {
        ref_entry(m)
    } else {
        recovery_entry(m)
    }
}

/// The pairs of a list, in order; the first refused entry decides.
pub open spec fn entries_of(items: Seq<Model>, refs: bool) -> Result<Seq<Pair>, BindingError>
    decreases items.len(),
{
    if items.len() == 0 {
        Ok(Seq::empty())
    } else {
        match entries_of(items.drop_last(), refs) {
            Err(e) => Err(e),
            Ok(ps) => match pair_entry(refs, items.last()) {
                Err(e) => Err(e),
                Ok(x) => Ok(ps.push(x)),
            },
        }
    }
}

/// The pairs of a JSON value that must be an array.
pub open spec fn list_of(m: Model, refs: bool, not_array: BindingError) -> Result<Seq<Pair>, BindingError> {
    match m {
        Model::Array(items) => entries_of(items, refs),
        _ => Err(not_array),
    }
}

/// The pairs of a ref list: type and hash.
pub open spec fn ref_views(v: Seq<Ref>) -> Seq<Pair> {
    v.map_values(|r: Ref| (r.ref_type, r.hash@))
}

proof fn lemma_entries_prefix_err(items: Seq<Model>, refs: bool, k: int)
    requires
        0 <= k <= items.len(),
        entries_of(items.take(k), refs) is Err,
    ensures
        entries_of(items, refs) == entries_of(items.take(k), refs),
    decreases items.len() - k,
{
    if k < items.len() {
        assert(items.take(k + 1).drop_last() =~= items.take(k));
        lemma_entries_prefix_err(items, refs, k + 1);
    } else {
        assert(items.take(k) =~= items);
    }
}

/// Reads a JSON list of `[number, bytes]` pairs, checking each entry
/// as `f` says (see [`list_of`]).
fn read_pairs(json: &str, refs: bool, not_array: &'static str) -> (res: Result<Vec<(u64, Vec<u8>)>, BindingError>)
    ensures
        match spec_from_json(json@) {
            None => res matches Err(BindingError::Kernel(e)) && e is Cbor,
            Some(m) => match list_of(m, refs, BindingError::Argument(not_array)) {
                Err(e) => res == Err::<Vec<(u64, Vec<u8>)>, BindingError>(e),
                Ok(ps) => res matches Ok(v) && v@.map_values(|p: (u64, Vec<u8>)| (p.0, p.1@)) == ps,
            },
        },
{
    let value = match from_json(json) {
        Ok(v) => v,
        Err(e) => {
            return Err(BindingError::Kernel(e));
        },
    };
    let arr = match value.as_array() {
        Some(a) => a,
        None => {
            return Err(BindingError::Argument(not_array));
        },
    };
    let ghost items = model_list(arr@);
    proof {
        lemma_model_list(arr@);
    }
    let mut out: Vec<(u64, Vec<u8>)> = Vec::new();
    let mut i: usize = 0;
    proof {
        assert(items.take(0) =~= Seq::<Model>::empty());
        assert(out@.map_values(|p: (u64, Vec<u8>)| (p.0, p.1@)) =~= Seq::<Pair>::empty());
    }
    while i < arr.len()
        invariant
            i <= arr.len(),
            items == model_list(arr@),
            spec_from_json(json@) == Some(Model::Array(items)),
            items.len() == arr@.len(),
            forall|j: int| 0 <= j < arr@.len() ==> #[trigger] items[j] == arr@[j]@,
            entries_of(items.take(i as int), refs) == Ok::<Seq<Pair>, BindingError>(
                out@.map_values(|p: (u64, Vec<u8>)| (p.0, p.1@)),
            ),
        decreases arr.len() - i,
    {
        let ghost before = out@;
        proof {
            assert(items.take(i + 1).drop_last() =~= items.take(i as int));
            assert(items.take(i + 1).last() == arr@[i as int]@);
        }
        let entry = &arr[i];
        let r = read_pair(entry, refs);
        match r {
            Ok(p) => {
                out.push(p);
                proof {
                    assert(out@.map_values(|p: (u64, Vec<u8>)| (p.0, p.1@)) =~= before.map_values(
                        |p: (u64, Vec<u8>)| (p.0, p.1@),
                    ).push((p.0, p.1@)));
                }
            },
            Err(e) => {
                proof {
                    assert(entries_of(items.take(i + 1), refs) == Err::<Seq<Pair>, BindingError>(e));
                    lemma_entries_prefix_err(items, refs, i + 1);
                }
                return Err(e);
            },
        }
        i = i + 1;
    }
    proof {
        assert(items.take(arr@.len() as int) =~= items);
    }
    Ok(out)
}

/// One `[number, bytes]` entry, checked as a ref when `refs`, else as
/// a recovery key.
fn read_pair(entry: &Value, refs: bool) -> (res: Result<(u64, Vec<u8>), BindingError>)
    ensures
        match pair_entry(refs, entry@) {
            Ok(p) => res matches Ok(q) && q.0 == p.0 && q.1@ == p.1,
            Err(e) => res == Err::<(u64, Vec<u8>), BindingError>(e),
        },
{
    let shape: &'static str = if refs {
        "each ref must be [type, hash]"
    } else {
        "each recovery entry must be [alg, key]"
    };
    let pair = match entry.as_array() {
        Some(p) => p,
        None => {
            return Err(BindingError::Argument(shape));
        },
    };
    proof {
        lemma_model_list(pair@);
    }
    if pair.len() != 2 {
        return Err(BindingError::Argument(shape));
    }
    let n = match pair[0].as_u64() {
        Some(n) => n,
        None => {
            return Err(BindingError::Argument(
                if refs {
                    "ref type must be 0 or 1"
                } else {
                    "recovery alg must be a number"
                },
            ));
        },
    };
    if refs && n > 1 {
        return Err(BindingError::Argument("ref type must be 0 or 1"));
    }
    let b = match pair[1].as_bytes() {
        Some(b) => b,
        None => {
            return Err(BindingError::Argument(
                if refs {
                    "ref hash must be hex bytes"
                } else {
                    "recovery key must be hex bytes"
                },
            ));
        },
    };
    if refs && b.len() != 32 {
        return Err(BindingError::Argument("ref hash must be exactly 32 bytes"));
    }
    Ok((n, bytes_to_vec(b)))
}

/// Parses a JSON array of `[ref_type, "hex:<hash>"]` pairs.
fn parse_refs(json: &str) -> (res: Result<Vec<Ref>, BindingError>)
    ensures
        match spec_from_json(json@) {
            None => res matches Err(BindingError::Kernel(e)) && e is Cbor,
            Some(m) => match list_of(m, true, BindingError::Argument("refs must be a JSON array")) {
                Err(e) => res == Err::<Vec<Ref>, BindingError>(e),
                Ok(ps) => res matches Ok(v) && ref_views(v@) == ps,
            },
        },
{
    let pairs = read_pairs(json, true, "refs must be a JSON array")?;
    let ghost ps = pairs@.map_values(|p: (u64, Vec<u8>)| (p.0, p.1@));
    let mut out: Vec<Ref> = Vec::new();
    let mut i: usize = 0;
    proof {
        let m = spec_from_json(json@)->0;
        lemma_entries_hashes(m->Array_0);
    }
    while i < pairs.len()
        invariant
            i <= pairs.len(),
            ps == pairs@.map_values(|p: (u64, Vec<u8>)| (p.0, p.1@)),
            forall|j: int| 0 <= j < ps.len() ==> (#[trigger] ps[j]).1.len() == 32,
            ref_views(out@) == ps.take(i as int),
        decreases pairs.len() - i,
    {
        let ghost before = out@;
        proof {
            assert(ps[i as int].1.len() == 32);
        }
        let hash = crate::record::array32(pairs[i].1.as_slice());
        out.push(Ref { ref_type: pairs[i].0, hash });
        proof {
            assert(ref_views(out@) =~= ref_views(before).push((pairs@[i as int].0, pairs@[i as int].1@)));
            assert(ps.take(i + 1) =~= ps.take(i as int).push(ps[i as int]));
        }
        i = i + 1;
    }
    proof {
        assert(ps.take(pairs@.len() as int) =~= ps);
    }
    Ok(out)
}

proof fn lemma_entries_hashes(items: Seq<Model>)
    ensures
        entries_of(items, true) matches Ok(ps) ==> forall|j: int| 0 <= j < ps.len() ==> (#[trigger] ps[j]).1.len() == 32,
    decreases items.len(),
{
    if items.len() > 0 {
        lemma_entries_hashes(items.drop_last());
    }
}

/// Parses a JSON array of `[alg, "hex:<key>"]` recovery keys.
pub fn parse_recovery(json: &str) -> (res: Result<Vec<AlgKey>, BindingError>)
    ensures
        match spec_from_json(json@) {
            None => res matches Err(BindingError::Kernel(e)) && e is Cbor,
            Some(m) => match list_of(m, false, BindingError::Argument("recovery must be a JSON array")) {
                Err(e) => res == Err::<Vec<AlgKey>, BindingError>(e),
                Ok(ps) => res matches Ok(v) && alg_keys(v@) == ps,
            },
        },
{
    read_pairs(json, false, "recovery must be a JSON array")
}

/// Build and sign a record: `refs_json` is a JSON array of
/// `[ref_type, "hex:<hash>"]` pairs, `body_json` the body map in JSON
/// interchange form. Returns the canonical bytes.
pub fn build_record(
    keypair: &WasmKeypair,
    identity_id: &[u8],
    kind: u32,
    created_at: i64,
    refs_json: &str,
    body_json: &str,
) -> (res: Result<Vec<u8>, BindingError>)
    ensures
        identity_id@.len() != 32 ==> res == Err::<Vec<u8>, BindingError>(
            BindingError::Argument("identity_id must be exactly 32 bytes"),
        ),
        identity_id@.len() == 32 ==> match spec_from_json(refs_json@) {
            None => res matches Err(BindingError::Kernel(e)) && e is Cbor,
            Some(rm) => match list_of(rm, true, BindingError::Argument("refs must be a JSON array")) {
                Err(e) => res == Err::<Vec<u8>, BindingError>(e),
                Ok(ps) => match spec_from_json(body_json@) {
                    None => res matches Err(BindingError::Kernel(e)) && e is Cbor,
                    Some(body) => if !(body is Dict) {
                        res == Err::<Vec<u8>, BindingError>(BindingError::Kernel(Error::Envelope("body must be a map")))
                    } else if !canon_ok(body) {
                        res matches Err(BindingError::Kernel(_))
                    } else {
                        res matches Ok(b) && exists|refs: Seq<Ref>| #[trigger] ref_views(refs) == ps && b@ == enc(envelope(
                            signed_record(
                                BuilderModel { kind: kind as u64, created_at, refs, body },
                                keypair@,
                                identity_id@,
                            ),
                            true,
                        ))
                    },
                },
            },
        },
{
    let id = take32(identity_id, "identity_id must be exactly 32 bytes")?;
    let refs = parse_refs(refs_json)?;
    let body = match from_json(body_json) {
        Ok(v) => v,
        Err(e) => {
            return Err(BindingError::Kernel(e));
        },
    };
    let ghost rs = refs@;
    let builder = RecordBuilder::new(kind as u64).created_at(created_at).refs(refs).body(body);
    match builder.sign_as(&keypair.inner, IdentityId(id)) {
        Ok(r) => {
            let b = r.to_canonical_cbor();
            proof {
                assert(ref_views(rs) == ref_views(rs));
            }
            Ok(b)
        },
        Err(e) => Err(BindingError::Kernel(e)),
    }
}

/// The rotation body a genesis or rotation declares.
pub open spec fn rotation_of(key: Seq<u8>, key_alg: u64, recovery: Seq<Pair>, contest_window: u64) -> RotationModel {
    RotationModel { key, key_alg, recovery, contest_window }
}

/// Create a genesis rotation record: `recovery_json` is a JSON array of
/// `[alg, "hex:<key>"]`. Returns the canonical bytes; the new identity
/// id is the record's id.
pub fn genesis_record(keypair: &WasmKeypair, recovery_json: &str, contest_window: u32, created_at: i64) -> (res: Result<
    Vec<u8>,
    BindingError,
>)
    ensures
        match spec_from_json(recovery_json@) {
            None => res matches Err(BindingError::Kernel(e)) && e is Cbor,
            Some(m) => match list_of(m, false, BindingError::Argument("recovery must be a JSON array")) {
                Err(e) => res == Err::<Vec<u8>, BindingError>(e),
                Ok(rec) => {
                    let rot = rotation_of(ed25519_public_key(keypair@), SIG_ALG_ED25519, rec, contest_window as u64);
                    if canon_ok(rotation_value(rot)) {
                        res matches Ok(b) && b@ == enc(envelope(rotation_record(keypair@, zero32(), Seq::empty(), rot, created_at), true))
                    } else {
                        res matches Err(BindingError::Kernel(_))
                    }
                },
            },
        },
{
    let recovery = parse_recovery(recovery_json)?;
    match Identity::genesis(&keypair.inner, recovery.as_slice(), contest_window as u64, created_at) {
        Ok((_, record)) => Ok(record.to_canonical_cbor()),
        Err(e) => Err(BindingError::Kernel(e)),
    }
}

/// Create a rotation record of `identity_id`, chained to
/// `prev_rotation_id`, signed by `signer`. Returns the canonical bytes.
pub fn rotate_record(
    signer: &WasmKeypair,
    identity_id: &[u8],
    prev_rotation_id: &[u8],
    new_key: &[u8],
    new_key_alg: u32,
    recovery_json: &str,
    contest_window: u32,
    created_at: i64,
) -> (res: Result<Vec<u8>, BindingError>)
    ensures
        match spec_from_json(recovery_json@) {
            None => res matches Err(BindingError::Kernel(e)) && e is Cbor,
            Some(m) => match list_of(m, false, BindingError::Argument("recovery must be a JSON array")) {
                Err(e) => res == Err::<Vec<u8>, BindingError>(e),
                Ok(rec) => if identity_id@.len() != 32 {
                    res == Err::<Vec<u8>, BindingError>(BindingError::Argument("identity_id must be exactly 32 bytes"))
                } else if prev_rotation_id@.len() != 32 {
                    res == Err::<Vec<u8>, BindingError>(BindingError::Argument("prev_rotation_id must be exactly 32 bytes"))
                } else {
                    let rot = rotation_of(new_key@, new_key_alg as u64, rec, contest_window as u64);
                    if canon_ok(rotation_value(rot)) {
                        res matches Ok(b) && exists|prev: [u8; 32]| #[trigger] prev@ == prev_rotation_id@ && b@ == enc(envelope(
                            rotation_record(signer@, identity_id@, seq![Ref { ref_type: 0, hash: prev }], rot, created_at),
                            true,
                        ))
                    } else {
                        res matches Err(BindingError::Kernel(_))
                    }
                },
            },
        },
{
    let recovery = parse_recovery(recovery_json)?;
    let id = take32(identity_id, "identity_id must be exactly 32 bytes")?;
    let prev = take32(prev_rotation_id, "prev_rotation_id must be exactly 32 bytes")?;
    match Identity::rotate(
        IdentityId(id),
        RecordId(prev),
        new_key,
        new_key_alg as u64,
        recovery.as_slice(),
        contest_window as u64,
        created_at,
        &signer.inner,
    ) {
        Ok(record) => Ok(record.to_canonical_cbor()),
        Err(e) => Err(BindingError::Kernel(e)),
    }
}

/// The records that a list of byte strings are the wire forms of, when
/// every one of them is.
pub open spec fn decoded_all(rs: Seq<Vec<u8>>) -> Option<Seq<RecordModel>> {
    if forall|i: int| 0 <= i < rs.len() ==> #[trigger] record_of_bytes(rs[i]@) is Some {
        Some(Seq::new(rs.len(), |i: int| record_of_bytes(rs[i]@)->Some_0))
    } else {
        None
    }
}

/// `[alg,"hex:<key>"]`.
pub open spec fn alg_key_json(k: Pair) -> Seq<char> {
    "["@ + dec_digits(k.0 as nat) + ",\"hex:"@ + spec_hex(k.1) + "\"]"@
}

/// The recovery keys, comma separated.
pub open spec fn recovery_json(ks: Seq<Pair>) -> Seq<char>
    decreases ks.len(),
{
    if ks.len() == 0 {
        Seq::empty()
    } else if ks.len() == 1 {
        alg_key_json(ks[0])
    } else {
        recovery_json(ks.drop_last()) + ","@ + alg_key_json(ks.last())
    }
}

/// An identity state as a JSON object.
pub open spec fn state_json(s: StateModel) -> Seq<char> {
    "{\"identity_id\":\"hex:"@ + spec_hex(s.identity_id) + "\",\"signing_key\":\"hex:"@ + spec_hex(s.signing_key)
        + "\",\"key_alg\":"@ + dec_digits(s.key_alg as nat) + ",\"recovery\":["@ + recovery_json(s.recovery)
        + "],\"contest_window\":"@ + dec_digits(s.contest_window as nat) + ",\"head\":\"hex:"@ + spec_hex(s.head)
        + "\",\"depth\":"@ + dec_digits(s.depth as nat) + "}"@
}

/// `s` followed by `t`.
fn append(s: String, t: &str) -> (r: String)
    ensures
        r@ == s@ + t@,
{
    concat(s.as_str(), t)
}

/// The decimal digits of `n`.
fn dec_string(n: u64) -> (r: String)
    ensures
        r@ == dec_digits(n as nat),
{
    let d = decimal(n as u128);
    proof {
        assert(d@.skip(0) =~= d@);
    }
    chars_to_string(&d, 0)
}

/// Renders an identity state (see [`state_json`]).
fn render_state(st: &IdentityState) -> (r: String)
    ensures
        r@ == state_json(st@),
{
    proof {
        reveal_strlit("{\"identity_id\":\"hex:");
        reveal_strlit("\",\"signing_key\":\"hex:");
        reveal_strlit("\",\"key_alg\":");
        reveal_strlit(",\"recovery\":[");
        reveal_strlit("],\"contest_window\":");
        reveal_strlit(",\"head\":\"hex:");
        reveal_strlit("\",\"depth\":");
        reveal_strlit("}");
    }
    let mut s = own("{\"identity_id\":\"hex:");
    s = append(s, hex_bytes(&st.identity_id.0).as_str());
    s = append(s, "\",\"signing_key\":\"hex:");
    s = append(s, hex_bytes(st.signing_key.as_slice()).as_str());
    s = append(s, "\",\"key_alg\":");
    s = append(s, dec_string(st.key_alg).as_str());
    s = append(s, ",\"recovery\":[");
    s = append(s, render_recovery(&st.recovery).as_str());
    s = append(s, "],\"contest_window\":");
    s = append(s, dec_string(st.contest_window).as_str());
    s = append(s, ",\"head\":\"hex:");
    s = append(s, hex_bytes(&st.head.0).as_str());
    s = append(s, "\",\"depth\":");
    s = append(s, dec_string(st.depth).as_str());
    s = append(s, "}");
    s
}

/// Renders recovery keys (see [`recovery_json`]).
fn render_recovery(ks: &Vec<AlgKey>) -> (r: String)
    ensures
        r@ == recovery_json(alg_keys(ks@)),
{
    let ghost v = alg_keys(ks@);
    let mut s = String::new();
    let mut i: usize = 0;
    proof {
        reveal_strlit("[");
        reveal_strlit(",\"hex:");
        reveal_strlit("\"]");
        reveal_strlit(",");
        assert(v.take(0) =~= Seq::<Pair>::empty());
    }
    while i < ks.len()
        invariant
            i <= ks.len(),
            v == alg_keys(ks@),
            s@ == recovery_json(v.take(i as int)),
        decreases ks.len() - i,
    {
        if i > 0 {
            s = append(s, ",");
        }
        s = append(s, "[");
        s = append(s, dec_string(ks[i].0).as_str());
        s = append(s, ",\"hex:");
        s = append(s, hex_bytes(ks[i].1.as_slice()).as_str());
        s = append(s, "\"]");
        proof {
            assert(v.take(i + 1).drop_last() =~= v.take(i as int));
            assert(v.take(i + 1).last() == (ks@[i as int].0, ks@[i as int].1@));
        }
        i = i + 1;
    }
    proof {
        assert(v.take(ks@.len() as int) =~= v);
    }
    s
}

/// Verify a rotation chain given as canonical record bytes, every
/// rotation taken as just observed (none is final yet); the resulting
/// state as a JSON object.
pub fn verify_chain(records: &[Vec<u8>], now: i64) -> (res: Result<String, BindingError>)
    ensures
        match decoded_all(records@) {
            None => res matches Err(BindingError::Kernel(_)),
            Some(rs) => match chain_result(rs, Seq::new(rs.len(), |i: int| None::<i64>), now) {
                Ok(st) => res matches Ok(s) && s@ == state_json(st),
                Err(e) => res == Err::<String, BindingError>(BindingError::Kernel(e)),
            },
        },
{
    let mut parsed: Vec<Record> = Vec::new();
    let mut none: Vec<Option<i64>> = Vec::new();
    let mut i: usize = 0;
    while i < records.len()
        invariant
            i <= records.len(),
            parsed@.len() == i,
            none@ == Seq::new(i as nat, |k: int| None::<i64>),
            forall|k: int| 0 <= k < i ==> record_of_bytes(records@[k]@) == Some(#[trigger] parsed@[k]@),
        decreases records.len() - i,
    {
        match parse(records[i].as_slice()) {
            Ok(r) => {
                parsed.push(r);
                none.push(None);
                proof {
                    assert(none@ =~= Seq::new((i + 1) as nat, |k: int| None::<i64>));
                }
            },
            Err(e) => {
                proof {
                    assert(!(record_of_bytes(records@[i as int]@) is Some));
                }
                return Err(e);
            },
        }
        i = i + 1;
    }
    let ghost rs = Seq::new(records@.len(), |k: int| record_of_bytes(records@[k]@)->Some_0);
    proof {
        assert forall|k: int| 0 <= k < records@.len() implies #[trigger] record_of_bytes(records@[k]@) is Some by {
            assert(record_of_bytes(records@[k]@) == Some(parsed@[k]@));
        }
        assert(record_models(parsed@) =~= rs);
    }
    match verify_chain_observed(parsed.as_slice(), none.as_slice(), now) {
        Ok(st) => Ok(render_state(&st)),
        Err(e) => Err(BindingError::Kernel(e)),
    }
}

/// Sign a rendition's derivation statement with `keypair`: the 64-byte
/// signature for a manifest's `derivation_sig`.
pub fn sign_derivation(
    keypair: &WasmKeypair,
    original: &[u8],
    rendition: &[u8],
    codec: &str,
    width: u32,
    height: u32,
    bitrate: u32,
) -> (res: Result<Vec<u8>, BindingError>)
    ensures
        original@.len() != 32 ==> res == Err::<Vec<u8>, BindingError>(
            BindingError::Argument("original blob id must be exactly 32 bytes"),
        ),
        original@.len() == 32 && rendition@.len() != 32 ==> res == Err::<Vec<u8>, BindingError>(
            BindingError::Argument("rendition blob id must be exactly 32 bytes"),
        ),
        original@.len() == 32 && rendition@.len() == 32 ==> (res matches Ok(v) && v@ == ed25519_signature(
            keypair@,
            DERIVATION_SIG_PREFIX@ + blake3_digest(
                enc(statement_model(original@, rendition@, codec@, Some(width as u64), Some(height as u64), bitrate as u64)),
            ),
        )),
{
    let o = take32(original, "original blob id must be exactly 32 bytes")?;
    let r = take32(rendition, "rendition blob id must be exactly 32 bytes")?;
    let statement = match derivation_statement(
        &BlobId(o),
        &BlobId(r),
        codec,
        Some(width as u64),
        Some(height as u64),
        bitrate as u64,
    ) {
        Ok(b) => b,
        Err(e) => {
            return Err(BindingError::Kernel(e));
        },
    };
    let digest = blake3_hash(statement.as_slice());
    let mut msg: Vec<u8> = Vec::new();
    extend_bytes(&mut msg, &DERIVATION_SIG_PREFIX);
    extend_bytes(&mut msg, &digest);
    proof {
        assert(msg@ =~= DERIVATION_SIG_PREFIX@ + digest@);
    }
    Ok(bytes_to_vec(&keypair.inner.sign(msg.as_slice())))
}

/// A byte string cut into consecutive 32-byte pieces.
pub open spec fn split32(p: Seq<u8>) -> Seq<Seq<u8>> {
    Seq::new(p.len() / 32, |i: int| p.subrange(32 * i, 32 * i + 32))
}

/// Verify one chunk against a chunk root; `proof` is the concatenation
/// of the 32-byte sibling hashes from the prover.
pub fn verify_chunk(root: &[u8], n_chunks: u32, index: u32, chunk: &[u8], proof: &[u8]) -> (res: Result<
    (),
    BindingError,
>)
    ensures
        root@.len() != 32 ==> res == Err::<(), BindingError>(BindingError::Argument("root must be exactly 32 bytes")),
        root@.len() == 32 && proof@.len() % 32 != 0 ==> res == Err::<(), BindingError>(
            BindingError::Argument("proof must be a concatenation of 32-byte hashes"),
        ),
        root@.len() == 32 && proof@.len() % 32 == 0 ==> {
            &&& index >= n_chunks ==> res == Err::<(), BindingError>(
                BindingError::Kernel(Error::ChunkProof("chunk index out of range")),
            )
            &&& index < n_chunks ==> (res is Ok <==> climb(
                n_chunks as int,
                index as int,
                leaf_digest(chunk@),
                split32(proof@),
            ) == Some(root@))
            &&& res matches Err(e) ==> e matches BindingError::Kernel(k) && k is ChunkProof
            &&& res == match crate::blob::chunk_check(root@, n_chunks as int, index as int, chunk@, split32(proof@)) {
                Ok(()) => Ok::<(), BindingError>(()),
                Err(e) => Err(BindingError::Kernel(e)),
            }
        },
{
    let root = take32(root, "root must be exactly 32 bytes")?;
    if proof.len() % 32 != 0 {
        return Err(BindingError::Argument("proof must be a concatenation of 32-byte hashes"));
    }
    let mut siblings: Vec<[u8; 32]> = Vec::new();
    let mut i: usize = 0;
    while i < proof.len() / 32
        invariant
            proof@.len() % 32 == 0,
            i <= proof@.len() / 32,
            digests(siblings@) == split32(proof@).take(i as int),
        decreases proof.len() / 32 - i,
    {
        let ghost before = siblings@;
        let piece = slice_subrange(proof, 32 * i, 32 * i + 32);
        siblings.push(crate::record::array32(piece));
        proof {
            assert(digests(siblings@) =~= digests(before).push(piece@));
            assert(split32(proof@).take(i + 1) =~= split32(proof@).take(i as int).push(split32(proof@)[i as int]));
        }
        i = i + 1;
    }
    proof {
        assert(split32(proof@).take((proof@.len() / 32) as int) =~= split32(proof@));
    }
    match blob::verify_chunk(&root, n_chunks as usize, index as usize, chunk, siblings.as_slice()) {
        Ok(()) => Ok(()),
        Err(e) => Err(BindingError::Kernel(e)),
    }
}

/// The abstract content of a [`BlobHasher`]: every byte fed so far, and
/// whether it has been finalized.
pub struct BlobHasherModel {
    pub data: Seq<u8>,
    pub finished: bool,
}

/// The leaves of the full chunks of `d`, and the rest of `d` after them.
pub open spec fn leaves_ok(leaves: Seq<Seq<u8>>, pending: Seq<u8>, d: Seq<u8>) -> bool {
    &&& leaves.len() == (d.len() as int) / (CHUNK_SIZE as int)
    &&& pending == d.skip(leaves.len() * CHUNK_SIZE)
    &&& forall|i: int|
        0 <= i < leaves.len() ==> #[trigger] leaves[i] == leaf_digest(d.subrange(i * CHUNK_SIZE, i * CHUNK_SIZE + CHUNK_SIZE))
}

/// Incremental blob hashing for streams: the flat BLAKE3 id and the
/// chunk-tree leaves in one pass.
pub struct BlobHasher {
    hasher: blake3::Hasher,
    leaves: Vec<[u8; 32]>,
    pending: Vec<u8>,
    size: u64,
    finished: bool,
    root: Option<[u8; 32]>,
}

impl View for BlobHasher {
    type V = BlobHasherModel;

    closed spec fn view(&self) -> BlobHasherModel {
        BlobHasherModel { data: hasher_input(self.hasher), finished: self.finished }
    }
}

impl BlobHasher {
    /// Well-formed: the size, leaves, pending bytes and root agree with
    /// the bytes fed.
    pub closed spec fn wf(&self) -> bool {
        let d = hasher_input(self.hasher);
        &&& self.size == d.len()
        &&& !self.finished ==> leaves_ok(digests(self.leaves@), self.pending@, d)
        &&& self.finished ==> digests(self.leaves@) == blob_leaves(d)
        &&& self.finished ==> (if d.len() == 0 {
            self.root is None
        } else {
            self.root matches Some(r) && r@ == root_of(blob_leaves(d))
        })
    }

    /// A hasher that has been fed nothing.
    pub fn new() -> (h: BlobHasher)
        ensures
            h@ == (BlobHasherModel { data: Seq::empty(), finished: false }),
            h.wf(),
    {
        let h = BlobHasher {
            hasher: hasher_new(),
            leaves: Vec::new(),
            pending: Vec::new(),
            size: 0,
            finished: false,
            root: None,
        };
        proof {
            assert(digests(h.leaves@) =~= Seq::<Seq<u8>>::empty());
            assert(h.pending@ =~= hasher_input(h.hasher).skip(0));
        }
        h
    }

    /// Feed the next bytes of the stream; refused once finalized.
    pub fn update(&mut self, bytes: &[u8]) -> (res: Result<(), BindingError>)
        requires
            old(self).wf(),
            old(self)@.data.len() + bytes@.len() <= u64::MAX,
        ensures
            final(self).wf(),
            old(self)@.finished ==> res == Err::<(), BindingError>(BindingError::Argument("hasher already finalized"))
                && final(self)@ == old(self)@,
            !old(self)@.finished ==> res is Ok && final(self)@ == (BlobHasherModel {
                data: old(self)@.data + bytes@,
                finished: false,
            }),
    {
        if self.finished {
            return Err(BindingError::Argument("hasher already finalized"));
        }
        let ghost d0 = hasher_input(self.hasher);
        hasher_update(&mut self.hasher, bytes);
        self.size = self.size + bytes.len() as u64;
        let mut pos: usize = 0;
        proof {
            assert(d0 + bytes@.subrange(0, 0) =~= d0);
        }
        while pos < bytes.len()
            invariant
                pos <= bytes.len(),
                leaves_ok(digests(self.leaves@), self.pending@, d0 + bytes@.subrange(0, pos as int)),
                self.pending@.len() < CHUNK_SIZE,
                hasher_input(self.hasher) == d0 + bytes@,
                self.size == (d0 + bytes@).len(),
                !self.finished,
            decreases bytes.len() - pos,
        {
            let ghost d = d0 + bytes@.subrange(0, pos as int);
            let ghost n = self.leaves@.len();
            let space = CHUNK_SIZE - self.pending.len();
            let take = if space < bytes.len() - pos {
                space
            } else {
                bytes.len() - pos
            };
            let piece = slice_subrange(bytes, pos, pos + take);
            extend_bytes(&mut self.pending, piece);
            pos = pos + take;
            let ghost d2 = d0 + bytes@.subrange(0, pos as int);
            proof {
                assert(d2 =~= d + piece@);
                lemma_leaves_extend(digests(self.leaves@), d, piece@);
            }
            if self.pending.len() == CHUNK_SIZE {
                let ghost before = self.leaves@;
                let leaf = leaf_hash(self.pending.as_slice());
                self.leaves.push(leaf);
                self.pending.clear();
                proof {
                    lemma_leaves_full(digests(before), d2);
                    assert(digests(self.leaves@) =~= digests(before).push(leaf@));
                }
            }
        }
        proof {
            assert(bytes@.subrange(0, bytes@.len() as int) =~= bytes@);
        }
        Ok(())
    }

    /// Finish hashing: the last partial chunk becomes a leaf and the
    /// chunk root is computed. Refused when already finalized.
    pub fn finalize(&mut self) -> (res: Result<(), BindingError>)
        requires
            old(self).wf(),
        ensures
            final(self).wf(),
            old(self)@.finished ==> res == Err::<(), BindingError>(BindingError::Argument("hasher already finalized"))
                && final(self)@ == old(self)@,
            !old(self)@.finished ==> res is Ok && final(self)@ == (BlobHasherModel {
                data: old(self)@.data,
                finished: true,
            }),
    {
        if self.finished {
            return Err(BindingError::Argument("hasher already finalized"));
        }
        let ghost d = hasher_input(self.hasher);
        if self.pending.len() > 0 {
            let ghost before = self.leaves@;
            let leaf = leaf_hash(self.pending.as_slice());
            self.leaves.push(leaf);
            self.pending.clear();
            proof {
                assert(digests(self.leaves@) =~= digests(before).push(leaf@));
            }
        }
        proof {
            lemma_leaves_final(digests(self.leaves@), d);
        }
        self.root = if self.leaves.len() == 0 {
            None
        } else {
            let mut level = self.leaves.clone();
            proof {
                assert(digests(level@) =~= digests(self.leaves@));
            }
            while level.len() > 1
                invariant
                    level.len() >= 1,
                    root_of(digests(level@)) == root_of(blob_leaves(d)),
                decreases level.len(),
            {
                proof {
                    lemma_reduce_len(digests(level@));
                }
                level = reduce_level(&level);
            }
            Some(level[0])
        };
        self.finished = true;
        Ok(())
    }

    /// The blob id (lowercase hex); only once finalized.
    pub fn id_hex(&self) -> (res: Result<String, BindingError>)
        ensures
            !self@.finished ==> res == Err::<String, BindingError>(BindingError::Argument("call finalize first")),
            self@.finished ==> (res matches Ok(s) && s@ == spec_hex(blake3_digest(self@.data))),
    {
        if !self.finished {
            return Err(BindingError::Argument("call finalize first"));
        }
        let d = hasher_digest(&self.hasher);
        Ok(hex_bytes(&d))
    }

    /// Total bytes hashed.
    pub fn size(&self) -> (n: u64)
        requires
            self.wf(),
        ensures
            n == self@.data.len(),
    {
        self.size
    }

    /// The number of chunk leaves so far: the full chunks, and once
    /// finalized every chunk (as 32 bits, truncated).
    pub fn n_chunks(&self) -> (n: u32)
        requires
            self.wf(),
        ensures
            n == (if self@.finished {
                chunk_count(self@.data.len() as int)
            } else {
                (self@.data.len() as int) / (CHUNK_SIZE as int)
            }) as u32,
    {
        #[verifier::truncate]
        (self.leaves.len() as u32)
    }

    /// The chunk root (lowercase hex), `None` for an empty blob; only
    /// once finalized.
    pub fn chunk_root_hex(&self) -> (res: Result<Option<String>, BindingError>)
        requires
            self.wf(),
        ensures
            !self@.finished ==> res == Err::<Option<String>, BindingError>(BindingError::Argument("call finalize first")),
            self@.finished && self@.data.len() == 0 ==> res == Ok::<Option<String>, BindingError>(None),
            self@.finished && self@.data.len() > 0 ==> (res matches Ok(Some(s)) && s@ == spec_hex(
                root_of(blob_leaves(self@.data)),
            )),
    {
        if !self.finished {
            return Err(BindingError::Argument("call finalize first"));
        }
        match self.root {
            Some(r) => Ok(Some(hex_bytes(&r))),
            None => Ok(None),
        }
    }
}

impl Default for BlobHasher {
    fn default() -> (h: BlobHasher)
        ensures
            h@ == (BlobHasherModel { data: Seq::empty(), finished: false }),
            h.wf(),
    {
        BlobHasher::new()
    }
}

proof fn lemma_leaves_extend(leaves: Seq<Seq<u8>>, d: Seq<u8>, piece: Seq<u8>)
    requires
        leaves_ok(leaves, d.skip(leaves.len() * CHUNK_SIZE), d),
        d.len() - leaves.len() * CHUNK_SIZE + piece.len() <= CHUNK_SIZE,
    ensures
        (d + piece).skip(leaves.len() * CHUNK_SIZE) == d.skip(leaves.len() * CHUNK_SIZE) + piece,
        forall|i: int|
            0 <= i < leaves.len() ==> #[trigger] (d + piece).subrange(i * CHUNK_SIZE, i * CHUNK_SIZE + CHUNK_SIZE)
                == d.subrange(i * CHUNK_SIZE, i * CHUNK_SIZE + CHUNK_SIZE),
{
    assert((d + piece).skip(leaves.len() * CHUNK_SIZE) =~= d.skip(leaves.len() * CHUNK_SIZE) + piece);
    assert forall|i: int| 0 <= i < leaves.len() implies #[trigger] (d + piece).subrange(i * CHUNK_SIZE, i * CHUNK_SIZE + CHUNK_SIZE)
        == d.subrange(i * CHUNK_SIZE, i * CHUNK_SIZE + CHUNK_SIZE) by {
        assert((d + piece).subrange(i * CHUNK_SIZE, i * CHUNK_SIZE + CHUNK_SIZE) =~= d.subrange(
            i * CHUNK_SIZE,
            i * CHUNK_SIZE + CHUNK_SIZE,
        ));
    }
}

proof fn lemma_leaves_full(leaves: Seq<Seq<u8>>, d: Seq<u8>)
    requires
        forall|i: int|
            0 <= i < leaves.len() ==> #[trigger] leaves[i] == leaf_digest(d.subrange(i * CHUNK_SIZE, i * CHUNK_SIZE + CHUNK_SIZE)),
        d.len() == leaves.len() * CHUNK_SIZE + CHUNK_SIZE,
    ensures
        leaves_ok(leaves.push(leaf_digest(d.skip(leaves.len() * CHUNK_SIZE))), Seq::empty(), d),
{
    let n = leaves.len() as int;
    let l2 = leaves.push(leaf_digest(d.skip(n * CHUNK_SIZE)));
    assert((d.len() as int) / (CHUNK_SIZE as int) == n + 1);
    assert(d.skip((n + 1) * CHUNK_SIZE) =~= Seq::<u8>::empty());
    assert(d.skip(n * CHUNK_SIZE) =~= d.subrange(n * CHUNK_SIZE, n * CHUNK_SIZE + CHUNK_SIZE));
}

proof fn lemma_leaves_final(leaves: Seq<Seq<u8>>, d: Seq<u8>)
    requires
        leaves.len() == chunk_count(d.len() as int),
        forall|i: int|
            0 <= i < leaves.len() ==> #[trigger] leaves[i] == leaf_digest(
                d.subrange(i * CHUNK_SIZE, if i * CHUNK_SIZE + CHUNK_SIZE <= d.len() { i * CHUNK_SIZE + CHUNK_SIZE } else { d.len() as int }),
            ),
    ensures
        leaves == blob_leaves(d),
{
    assert forall|i: int| 0 <= i < leaves.len() implies #[trigger] leaves[i] == blob_leaves(d)[i] by {
        assert(chunk_of(d, i) =~= d.subrange(
            i * CHUNK_SIZE,
            if i * CHUNK_SIZE + CHUNK_SIZE <= d.len() {
                i * CHUNK_SIZE + CHUNK_SIZE
            } else {
                d.len() as int
            },
        ));
    }
    assert(leaves =~= blob_leaves(d));
}

} // verus!
