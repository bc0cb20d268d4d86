//! Content kinds: `manifest`, `supersede`, `retract`, `mirror`,
//! `similarity`, and `delegate`, with the media descriptors a manifest
//! carries and the rendition derivation statement.

use vstd::prelude::*;
use crate::codec::{Value, Model, model_list, lemma_model_list, model_entries, lemma_model_entries};
use crate::access::spec_map_get;
use crate::error::Error;
use crate::ids::{BlobId, IdentityId, RecordId};
use crate::record::{Record, RecordModel, Ref, array32};
use crate::text::bytes_to_vec;
use crate::blob::CHUNK_SIZE;
use crate::codec::{enc, canon, canon_ok, canon_ok_list, canon_list, encode_canonical, spec_encode_canonical};
use crate::crypto::{blake3_hash, blake3_digest, ed25519_key_ok, ed25519_valid_point, ed25519_verify, ed25519_accepts};
use crate::access::{int_model};
use crate::identity::KIND_ROTATION;
use crate::text::{extend_bytes, str_eq, bytes_eq};
use crate::record::array64;
use crate::kinds::fields::{
    own, text_value, opt_text, opt_bytes, opt_blob, opt_arr, texts, items_of, items_at, array_at, req_bytes32,
    req_u64, req_nonempty_text, req_text, u64_at, bytes32_at, bytes_at, req_bytes, text_at, text_array_at,
    license_ok, ref_id, is_id32, i64_at, bool_or_at, array_field, required_blob_id, required_u64, required_nonempty_text,
    required_text, u64_field, bytes32_field, bytes_field, required_bytes, text_field, text_array, blob_id_field,
    validate_license, ref_record_id, refs_exact, refs_min, required_identity_id, i64_field, bool_or, push_entry,
    strings_value, strings_to_value, push_if, unbounded,
};

verus! {

// ---------------------------------------------------------------------
// Hints and payment pointers: `[uint, text]` pairs
// ---------------------------------------------------------------------

/// A `[uint, text]` pair.
pub open spec fn uint_text_pair(m: Model) -> Option<(u64, Seq<char>)> {
    match m {
        Model::Array(items) => if items.len() == 2 && items[0] is Uint && items[1] is Text {
            Some((items[0]->Uint_0, items[1]->Text_0))
        } else {
            None
        },
        _ => None,
    }
}

/// [`uint_text_pair`] as a function value.
pub open spec fn uint_text_pair_fn() -> spec_fn(Model) -> Option<(u64, Seq<char>)> {
    |m: Model| uint_text_pair(m)
}

/// The value a `[uint, text]` pair is written as.
pub open spec fn pair_value(p: (u64, Seq<char>)) -> Model {
    Model::Array(seq![Model::Uint(p.0), Model::Text(p.1)])
}

/// An optional array field of `[uint, text]` pairs; empty when absent.
pub open spec fn pairs_at(b: Model, k: Seq<char>) -> Option<Seq<(u64, Seq<char>)>> {
    items_at(b, k, uint_text_pair_fn())
}

/// A mirror or discovery hint: `[type, url]`.
#[derive(Debug, Clone, PartialEq, Eq)]
pub struct Hint(pub u64, pub String);

impl View for Hint {
    type V = (u64, Seq<char>);

    open spec fn view(&self) -> (u64, Seq<char>) {
        (self.0, self.1@)
    }
}

/// A payment pointer: `[rail, pointer]`.
#[derive(Debug, Clone, PartialEq, Eq)]
pub struct PaymentPointer(pub u64, pub String);

impl View for PaymentPointer {
    type V = (u64, Seq<char>);

    open spec fn view(&self) -> (u64, Seq<char>) {
        (self.0, self.1@)
    }
}

/// The pairs of a list of hints.
pub open spec fn hint_views(v: Seq<Hint>) -> Seq<(u64, Seq<char>)> {
    v.map_values(|h: Hint| h@)
}

/// The pairs of a list of payment pointers.
pub open spec fn payment_views(v: Seq<PaymentPointer>) -> Seq<(u64, Seq<char>)> {
    v.map_values(|p: PaymentPointer| p@)
}

/// Reads a `[uint, text]` pair.
fn parse_pair(
    v: &Value,
    m_shape: &'static str,
    m_len: &'static str,
    m_uint: &'static str,
    m_text: &'static str,
) -> (res: Result<(u64, String), Error>)
    ensures
        match uint_text_pair(v@) {
            None => res matches Err(e) && e is Kind,
            Some(p) => res matches Ok(x) && x.0 == p.0 && x.1@ == p.1,
        },
{
    let arr = match v.as_array() {
        Some(a) => a,
        None => {
            return Err(Error::Kind(m_shape));
        },
    };
    proof {
        lemma_model_list(arr@);
    }
    if arr.len() != 2 {
        return Err(Error::Kind(m_len));
    }
    let t = match arr[0].as_u64() {
        Some(t) => t,
        None => {
            return Err(Error::Kind(m_uint));
        },
    };
    let s = match arr[1].as_text() {
        Some(s) => own(s),
        None => {
            return Err(Error::Kind(m_text));
        },
    };
    Ok((t, s))
}

/// Writes a `[uint, text]` pair.
fn pair_to_value(t: u64, s: &String) -> (v: Value)
    ensures
        v@ == pair_value((t, s@)),
{
    let items = vec![Value::Uint(t), Value::Text(s.clone())];
    proof {
        lemma_model_list(items@);
        assert(model_list(items@) =~= seq![Model::Uint(t), Model::Text(s@)]);
    }
    Value::Array(items)
}

impl Hint {
    pub fn to_value(&self) -> (v: Value)
        ensures
            v@ == pair_value(self@),
    {
        pair_to_value(self.0, &self.1)
    }

    pub fn parse(v: &Value) -> (res: Result<Hint, Error>)
        ensures
            match uint_text_pair(v@) {
                None => res matches Err(e) && e is Kind,
                Some(p) => res matches Ok(h) && h@ == p,
            },
    {
        match parse_pair(v, "hint must be [type, url]", "hint must have exactly 2 elements", "hint type must be a uint", "hint url must be text") {
            Ok((t, s)) => Ok(Hint(t, s)),
            Err(e) => Err(e),
        }
    }
}

impl PaymentPointer {
    pub(crate) fn to_value(&self) -> (v: Value)
        ensures
            v@ == pair_value(self@),
    {
        pair_to_value(self.0, &self.1)
    }

    pub(crate) fn parse(v: &Value) -> (res: Result<PaymentPointer, Error>)
        ensures
            match uint_text_pair(v@) {
                None => res matches Err(e) && e is Kind,
                Some(p) => res matches Ok(x) && x@ == p,
            },
    {
        match parse_pair(
            v,
            "payment pointer must be [rail, pointer]",
            "payment pointer must have exactly 2 elements",
            "payment rail must be a uint",
            "payment pointer must be text",
        ) {
            Ok((t, s)) => Ok(PaymentPointer(t, s)),
            Err(e) => Err(e),
        }
    }
}

/// Reads an optional array of hints; empty when absent.
pub(crate) fn parse_hints(body: &Value, key: &str, msg: &'static str) -> (res: Result<Vec<Hint>, Error>)
    ensures
        match pairs_at(body@, key@) {
            None => res matches Err(e) && e is Kind,
            Some(ps) => res matches Ok(v) && hint_views(v@) == ps,
        },
        array_at(body@, key@) is None ==> res == Err::<Vec<Hint>, Error>(Error::Kind(msg)),
{
    let arr = match array_field(body, key, msg) {
        Err(e) => {
            return Err(e);
        },
        Ok(None) => {
            let v: Vec<Hint> = Vec::new();
            assert(hint_views(v@) =~= Seq::<(u64, Seq<char>)>::empty());
            return Ok(v);
        },
        Ok(Some(a)) => a,
    };
    proof {
        lemma_model_list(arr@);
    }
    let ghost ms = model_list(arr@);
    let mut out: Vec<Hint> = Vec::new();
    let mut i: usize = 0;
    while i < arr.len()
        invariant
            array_at(body@, key@) is Some && array_at(body@, key@)->0 is Some,
            i <= arr.len(),
            out.len() == i,
            ms == model_list(arr@),
            ms.len() == arr.len(),
            pairs_at(body@, key@) == items_of(ms, uint_text_pair_fn()),
            forall|k: int| 0 <= k < arr.len() ==> #[trigger] ms[k] == arr@[k]@,
            forall|k: int| 0 <= k < i ==> #[trigger] uint_text_pair(ms[k]) == Some(out@[k]@),
        decreases arr.len() - i,
    {
        match Hint::parse(&arr[i]) {
            Ok(h) => {
                out.push(h);
            },
            Err(e) => {
                assert(uint_text_pair_fn()(ms[i as int]) is None);
                return Err(e);
            },
        }
        i = i + 1;
    }
    proof {
        assert forall|k: int| 0 <= k < ms.len() implies (#[trigger] uint_text_pair_fn()(ms[k])) is Some by {
            assert(uint_text_pair(ms[k]) == Some(out@[k]@));
        }
        assert(hint_views(out@) =~= ms.map_values(|m: Model| uint_text_pair_fn()(m)->0));
    }
    Ok(out)
}

/// Reads an optional array of payment pointers; empty when absent.
pub(crate) fn parse_payments(body: &Value, key: &str, msg: &'static str) -> (res: Result<Vec<PaymentPointer>, Error>)
    ensures
        match pairs_at(body@, key@) {
            None => res matches Err(e) && e is Kind,
            Some(ps) => res matches Ok(v) && payment_views(v@) == ps,
        },
        array_at(body@, key@) is None ==> res == Err::<Vec<PaymentPointer>, Error>(Error::Kind(msg)),
{
    let arr = match array_field(body, key, msg) {
        Err(e) => {
            return Err(e);
        },
        Ok(None) => {
            let v: Vec<PaymentPointer> = Vec::new();
            assert(payment_views(v@) =~= Seq::<(u64, Seq<char>)>::empty());
            return Ok(v);
        },
        Ok(Some(a)) => a,
    };
    proof {
        lemma_model_list(arr@);
    }
    let ghost ms = model_list(arr@);
    let mut out: Vec<PaymentPointer> = Vec::new();
    let mut i: usize = 0;
    while i < arr.len()
        invariant
            array_at(body@, key@) is Some && array_at(body@, key@)->0 is Some,
            i <= arr.len(),
            out.len() == i,
            ms == model_list(arr@),
            ms.len() == arr.len(),
            pairs_at(body@, key@) == items_of(ms, uint_text_pair_fn()),
            forall|k: int| 0 <= k < arr.len() ==> #[trigger] ms[k] == arr@[k]@,
            forall|k: int| 0 <= k < i ==> #[trigger] uint_text_pair(ms[k]) == Some(out@[k]@),
        decreases arr.len() - i,
    {
        match PaymentPointer::parse(&arr[i]) {
            Ok(h) => {
                out.push(h);
            },
            Err(e) => {
                assert(uint_text_pair_fn()(ms[i as int]) is None);
                return Err(e);
            },
        }
        i = i + 1;
    }
    proof {
        assert forall|k: int| 0 <= k < ms.len() implies (#[trigger] uint_text_pair_fn()(ms[k])) is Some by {
            assert(uint_text_pair(ms[k]) == Some(out@[k]@));
        }
        assert(payment_views(out@) =~= ms.map_values(|m: Model| uint_text_pair_fn()(m)->0));
    }
    Ok(out)
}

/// The array value of a list of `[uint, text]` pairs.
pub open spec fn pairs_value(ps: Seq<(u64, Seq<char>)>) -> Model {
    Model::Array(ps.map_values(|p: (u64, Seq<char>)| pair_value(p)))
}

/// Writes a list of hints.
pub(crate) fn hints_value(v: &Vec<Hint>) -> (r: Value)
    ensures
        r@ == pairs_value(hint_views(v@)),
{
    let mut out: Vec<Value> = Vec::new();
    let mut i: usize = 0;
    while i < v.len()
        invariant
            i <= v.len(),
            out.len() == i,
            forall|k: int| 0 <= k < i ==> #[trigger] out@[k]@ == pair_value(v@[k]@),
        decreases v.len() - i,
    {
        out.push(v[i].to_value());
        i = i + 1;
    }
    proof {
        lemma_model_list(out@);
        let want = hint_views(v@).map_values(|p: (u64, Seq<char>)| pair_value(p));
        assert forall|k: int| 0 <= k < out@.len() implies #[trigger] model_list(out@)[k] == want[k] by {
            assert(model_list(out@)[k] == out@[k]@);
        }
        assert(model_list(out@) =~= want);
    }
    Value::Array(out)
}

/// Writes a list of payment pointers.
pub(crate) fn payments_value(v: &Vec<PaymentPointer>) -> (r: Value)
    ensures
        r@ == pairs_value(payment_views(v@)),
{
    let mut out: Vec<Value> = Vec::new();
    let mut i: usize = 0;
    while i < v.len()
        invariant
            i <= v.len(),
            out.len() == i,
            forall|k: int| 0 <= k < i ==> #[trigger] out@[k]@ == pair_value(v@[k]@),
        decreases v.len() - i,
    {
        out.push(v[i].to_value());
        i = i + 1;
    }
    proof {
        lemma_model_list(out@);
        let want = payment_views(v@).map_values(|p: (u64, Seq<char>)| pair_value(p));
        assert forall|k: int| 0 <= k < out@.len() implies #[trigger] model_list(out@)[k] == want[k] by {
            assert(model_list(out@)[k] == out@[k]@);
        }
        assert(model_list(out@) =~= want);
    }
    Value::Array(out)
}


// ---------------------------------------------------------------------
// Sponsorship segments and encryption
// ---------------------------------------------------------------------


/// A sponsored segment of a video.
#[derive(Debug, Clone, PartialEq, Eq)]
pub struct Sponsor {
    /// Start offset in milliseconds.
    pub start_ms: u64,
    /// End offset in milliseconds.
    pub end_ms: u64,
    /// Label shown for the segment.
    pub label: String,
}

/// The content of a sponsored segment.
pub struct SponsorModel {
    pub start_ms: u64,
    pub end_ms: u64,
    pub label: Seq<char>,
}

impl View for Sponsor {
    type V = SponsorModel;

    open spec fn view(&self) -> SponsorModel {
        SponsorModel { start_ms: self.start_ms, end_ms: self.end_ms, label: self.label@ }
    }
}

/// A sponsored segment read from a map.
pub open spec fn sponsor_of(m: Model) -> Option<SponsorModel> {
    match (req_u64(m, "start_ms"@), req_u64(m, "end_ms"@), req_text(m, "label"@, unbounded())) {
        (Some(a), Some(b), Some(l)) => Some(SponsorModel { start_ms: a, end_ms: b, label: l }),
        _ => None,
    }
}

/// [`sponsor_of`] as a function value.
pub open spec fn sponsor_fn() -> spec_fn(Model) -> Option<SponsorModel> {
    |m: Model| sponsor_of(m)
}

/// The map a sponsored segment is written as.
pub open spec fn sponsor_value(s: SponsorModel) -> Model {
    Model::Dict(
        seq![
            (Model::Text("start_ms"@), Model::Uint(s.start_ms)),
            (Model::Text("end_ms"@), Model::Uint(s.end_ms)),
            (Model::Text("label"@), Model::Text(s.label)),
        ],
    )
}

/// The contents of a list of sponsored segments.
pub open spec fn sponsor_views(v: Seq<Sponsor>) -> Seq<SponsorModel> {
    v.map_values(|x: Sponsor| x@)
}

impl Sponsor {
    pub fn to_value(&self) -> (v: Value)
        ensures
            v@ == sponsor_value(self@),
    {
        let e = vec![
            (text_value("start_ms"), Value::Uint(self.start_ms)),
            (text_value("end_ms"), Value::Uint(self.end_ms)),
            (text_value("label"), Value::Text(self.label.clone())),
        ];
        proof {
            lemma_model_entries(e@);
            assert(model_entries(e@) =~= sponsor_value(self@)->Dict_0);
        }
        Value::Dict(e)
    }

    pub fn parse(v: &Value) -> (res: Result<Sponsor, Error>)
        ensures
            match sponsor_of(v@) {
                None => res matches Err(e) && e is Kind,
                Some(m) => res matches Ok(x) && x@ == m,
            },
    {
        let start_ms = match required_u64(v, "start_ms", "sponsor: start_ms required") {
            Ok(x) => x,
            Err(e) => {
                return Err(e);
            },
        };
        let end_ms = match required_u64(v, "end_ms", "sponsor: end_ms required") {
            Ok(x) => x,
            Err(e) => {
                return Err(e);
            },
        };
        let label = match required_text(v, "label", usize::MAX, "sponsor: label required") {
            Ok(x) => x,
            Err(e) => {
                return Err(e);
            },
        };
        Ok(Sponsor { start_ms, end_ms, label })
    }
}

/// Reads an optional array of sponsored segments; empty when absent.
fn parse_sponsors(body: &Value, key: &str, msg: &'static str) -> (res: Result<Vec<Sponsor>, Error>)
    ensures
        match items_at(body@, key@, sponsor_fn()) {
            None => res matches Err(e) && e is Kind,
            Some(ps) => res matches Ok(v) && sponsor_views(v@) == ps,
        },
        array_at(body@, key@) is None ==> res == Err::<Vec<Sponsor>, Error>(Error::Kind(msg)),
{
    let arr = match array_field(body, key, msg) {
        Err(e) => {
            return Err(e);
        },
        Ok(None) => {
            let v: Vec<Sponsor> = Vec::new();
            assert(sponsor_views(v@) =~= Seq::<SponsorModel>::empty());
            return Ok(v);
        },
        Ok(Some(a)) => a,
    };
    proof {
        lemma_model_list(arr@);
    }
    let ghost ms = model_list(arr@);
    let mut out: Vec<Sponsor> = Vec::new();
    let mut i: usize = 0;
    while i < arr.len()
        invariant
            array_at(body@, key@) is Some && array_at(body@, key@)->0 is Some,
            i <= arr.len(),
            out.len() == i,
            ms == model_list(arr@),
            ms.len() == arr.len(),
            items_at(body@, key@, sponsor_fn()) == items_of(ms, sponsor_fn()),
            forall|k: int| 0 <= k < arr.len() ==> #[trigger] ms[k] == arr@[k]@,
            forall|k: int| 0 <= k < i ==> #[trigger] sponsor_of(ms[k]) == Some(out@[k]@),
        decreases arr.len() - i,
    {
        match Sponsor::parse(&arr[i]) {
            Ok(h) => {
                out.push(h);
            },
            Err(e) => {
                assert(sponsor_fn()(ms[i as int]) is None);
                return Err(e);
            },
        }
        i = i + 1;
    }
    proof {
        assert forall|k: int| 0 <= k < ms.len() implies (#[trigger] sponsor_fn()(ms[k])) is Some by {
            assert(sponsor_of(ms[k]) == Some(out@[k]@));
        }
        assert(sponsor_views(out@) =~= ms.map_values(|m: Model| sponsor_fn()(m)->0));
    }
    Ok(out)
}

/// Writes a list of sponsored segments.
fn sponsors_value(v: &Vec<Sponsor>) -> (r: Value)
    ensures
        r@ == Model::Array(sponsor_views(v@).map_values(|s: SponsorModel| sponsor_value(s))),
{
    let mut out: Vec<Value> = Vec::new();
    let mut i: usize = 0;
    while i < v.len()
        invariant
            i <= v.len(),
            out.len() == i,
            forall|k: int| 0 <= k < i ==> #[trigger] out@[k]@ == sponsor_value(v@[k]@),
        decreases v.len() - i,
    {
        out.push(v[i].to_value());
        i = i + 1;
    }
    proof {
        lemma_model_list(out@);
        let want = sponsor_views(v@).map_values(|s: SponsorModel| sponsor_value(s));
        assert forall|k: int| 0 <= k < out@.len() implies #[trigger] model_list(out@)[k] == want[k] by {
            assert(model_list(out@)[k] == out@[k]@);
        }
        assert(model_list(out@) =~= want);
    }
    Value::Array(out)
}

/// Content encryption of a manifest's blobs.
#[derive(Debug, Clone, PartialEq, Eq)]
pub struct Encryption {
    /// Encryption scheme id.
    pub scheme: u64,
    /// Hint for locating the content key.
    pub key_hint: Option<String>,
}

/// The content of an encryption descriptor.
pub struct EncryptionModel {
    pub scheme: u64,
    pub key_hint: Option<Seq<char>>,
}

impl View for Encryption {
    type V = EncryptionModel;

    open spec fn view(&self) -> EncryptionModel {
        EncryptionModel { scheme: self.scheme, key_hint: opt_text(self.key_hint) }
    }
}

/// An encryption descriptor read from a map.
pub open spec fn encryption_of(m: Model) -> Option<EncryptionModel> {
    match (req_u64(m, "scheme"@), text_at(m, "key_hint"@, unbounded())) {
        (Some(s), Some(h)) => Some(EncryptionModel { scheme: s, key_hint: h }),
        _ => None,
    }
}

/// The map an encryption descriptor is written as.
pub open spec fn encryption_value(e: EncryptionModel) -> Model {
    Model::Dict(
        seq![(Model::Text("scheme"@), Model::Uint(e.scheme))] + match e.key_hint {
            Some(h) => seq![(Model::Text("key_hint"@), Model::Text(h))],
            None => Seq::empty(),
        },
    )
}

impl Encryption {
    pub fn to_value(&self) -> (v: Value)
        ensures
            v@ == encryption_value(self@),
    {
        let mut e = vec![(text_value("scheme"), Value::Uint(self.scheme))];
        match &self.key_hint {
            Some(h) => {
                e.push((text_value("key_hint"), Value::Text(h.clone())));
            },
            None => {},
        }
        proof {
            lemma_model_entries(e@);
            assert(model_entries(e@) =~= encryption_value(self@)->Dict_0);
        }
        Value::Dict(e)
    }

    pub fn parse(v: &Value) -> (res: Result<Encryption, Error>)
        ensures
            match encryption_of(v@) {
                None => res matches Err(e) && e is Kind,
                Some(m) => res matches Ok(x) && x@ == m,
            },
    {
        let scheme = match required_u64(v, "scheme", "encryption: scheme required") {
            Ok(x) => x,
            Err(e) => {
                return Err(e);
            },
        };
        let key_hint = match text_field(v, "key_hint", usize::MAX, "encryption: key_hint must be text") {
            Ok(x) => x,
            Err(e) => {
                return Err(e);
            },
        };
        Ok(Encryption { scheme, key_hint })
    }
}

// ---------------------------------------------------------------------
// Media, renditions, captions
// ---------------------------------------------------------------------

/// A media blob descriptor.
#[derive(Debug, PartialEq, Eq)]
pub struct Media {
    /// The blob.
    pub blob: BlobId,
    /// Size in bytes.
    pub size: u64,
    /// Chunk-tree root; required when the blob is larger than one chunk.
    pub chunk_root: Option<[u8; 32]>,
    /// Codec string, non-empty, at most 256 bytes.
    pub codec: String,
    /// Duration in milliseconds (the `duration` key).
    pub duration_ms: u64,
    /// Width in pixels; present together with `height`.
    pub width: Option<u64>,
    /// Height in pixels; present together with `width`.
    pub height: Option<u64>,
    /// The blob key wrapped for the content key (the `wrapped_key` key).
    pub wrapped_blob_key: Option<Vec<u8>>,
}

/// The content of a media descriptor.
pub struct MediaModel {
    pub blob: Seq<u8>,
    pub size: u64,
    pub chunk_root: Option<Seq<u8>>,
    pub codec: Seq<char>,
    pub duration_ms: u64,
    pub width: Option<u64>,
    pub height: Option<u64>,
    pub wrapped_blob_key: Option<Seq<u8>>,
}

impl View for Media {
    type V = MediaModel;

    open spec fn view(&self) -> MediaModel {
        MediaModel {
            blob: self.blob.0@,
            size: self.size,
            chunk_root: opt_arr(self.chunk_root),
            codec: self.codec@,
            duration_ms: self.duration_ms,
            width: self.width,
            height: self.height,
            wrapped_blob_key: opt_bytes(self.wrapped_blob_key),
        }
    }
}

/// Whether a map is a valid media descriptor.
pub open spec fn media_ok(m: Model) -> bool {
    &&& req_bytes32(m, "blob"@) is Some
    &&& req_u64(m, "size"@) is Some
    &&& req_nonempty_text(m, "codec"@, 256) is Some
    &&& req_u64(m, "duration"@) is Some
    &&& u64_at(m, "width"@) is Some
    &&& u64_at(m, "height"@) is Some
    &&& (u64_at(m, "width"@)->0 is Some) == (u64_at(m, "height"@)->0 is Some)
    &&& bytes32_at(m, "chunk_root"@) is Some
    &&& (req_u64(m, "size"@)->0 > CHUNK_SIZE ==> bytes32_at(m, "chunk_root"@)->0 is Some)
    &&& bytes_at(m, "wrapped_key"@) is Some
}

/// The media descriptor a valid map holds.
pub open spec fn media_model(m: Model) -> MediaModel {
    MediaModel {
        blob: req_bytes32(m, "blob"@)->0,
        size: req_u64(m, "size"@)->0,
        chunk_root: bytes32_at(m, "chunk_root"@)->0,
        codec: req_nonempty_text(m, "codec"@, 256)->0,
        duration_ms: req_u64(m, "duration"@)->0,
        width: u64_at(m, "width"@)->0,
        height: u64_at(m, "height"@)->0,
        wrapped_blob_key: bytes_at(m, "wrapped_key"@)->0,
    }
}

/// A media descriptor read from a map.
pub open spec fn media_of(m: Model) -> Option<MediaModel> {
    if media_ok(m) {
        Some(media_model(m))
    } else {
        None
    }
}

/// The entries a media descriptor is written as: blob, size, codec and
/// duration, then width and height when both are set, then the chunk
/// root and the wrapped key when set.
pub open spec fn media_entries(m: MediaModel) -> Seq<(Model, Model)> {
    seq![
        (Model::Text("blob"@), Model::Bytes(m.blob)),
        (Model::Text("size"@), Model::Uint(m.size)),
        (Model::Text("codec"@), Model::Text(m.codec)),
        (Model::Text("duration"@), Model::Uint(m.duration_ms)),
    ] + (if m.width is Some && m.height is Some {
        seq![(Model::Text("width"@), Model::Uint(m.width->0)), (Model::Text("height"@), Model::Uint(m.height->0))]
    } else {
        Seq::empty()
    }) + (match m.chunk_root {
        Some(c) => seq![(Model::Text("chunk_root"@), Model::Bytes(c))],
        None => Seq::empty(),
    }) + (match m.wrapped_blob_key {
        Some(k) => seq![(Model::Text("wrapped_key"@), Model::Bytes(k))],
        None => Seq::empty(),
    })
}

impl Media {
    fn entries(&self) -> (e: Vec<(Value, Value)>)
        ensures
            model_entries(e@) == media_entries(self@),
    {
        let mut e = vec![
            (text_value("blob"), Value::Bytes(bytes_to_vec(self.blob.as_bytes()))),
            (text_value("size"), Value::Uint(self.size)),
            (text_value("codec"), Value::Text(self.codec.clone())),
            (text_value("duration"), Value::Uint(self.duration_ms)),
        ];
        match (self.width, self.height) {
            (Some(w), Some(h)) => {
                e.push((text_value("width"), Value::Uint(w)));
                e.push((text_value("height"), Value::Uint(h)));
            },
            _ => {},
        }
        match self.chunk_root {
            Some(cr) => {
                e.push((text_value("chunk_root"), Value::Bytes(bytes_to_vec(&cr))));
            },
            None => {},
        }
        match &self.wrapped_blob_key {
            Some(k) => {
                e.push((text_value("wrapped_key"), Value::Bytes(k.clone())));
            },
            None => {},
        }
        proof {
            lemma_model_entries(e@);
            assert(model_entries(e@) =~= media_entries(self@));
        }
        e
    }

    pub fn to_value(&self) -> (v: Value)
        ensures
            v@ == Model::Dict(media_entries(self@)),
    {
        Value::Dict(self.entries())
    }

    pub fn parse(v: &Value) -> (res: Result<Media, Error>)
        ensures
            match media_of(v@) {
                None => res matches Err(e) && e is Kind,
                Some(m) => res matches Ok(x) && x@ == m,
            },
    {
        let blob = match required_blob_id(v, "blob", "media: blob required (32 bytes)") {
            Ok(x) => x,
            Err(e) => {
                return Err(e);
            },
        };
        let size = match required_u64(v, "size", "media: size required") {
            Ok(x) => x,
            Err(e) => {
                return Err(e);
            },
        };
        let codec = match required_nonempty_text(v, "codec", 256, "media: codec required") {
            Ok(x) => x,
            Err(e) => {
                return Err(e);
            },
        };
        let duration_ms = match required_u64(v, "duration", "media: duration required") {
            Ok(x) => x,
            Err(e) => {
                return Err(e);
            },
        };
        let width = match u64_field(v, "width", "media: width must be a uint") {
            Ok(x) => x,
            Err(e) => {
                return Err(e);
            },
        };
        let height = match u64_field(v, "height", "media: height must be a uint") {
            Ok(x) => x,
            Err(e) => {
                return Err(e);
            },
        };
        if width.is_some() != height.is_some() {
            return Err(Error::Kind("media: width and height must be both present or both absent"));
        }
        let chunk_root = match bytes32_field(v, "chunk_root", "media: chunk_root must be 32 bytes") {
            Ok(x) => x,
            Err(e) => {
                return Err(e);
            },
        };
        if size > CHUNK_SIZE as u64 && chunk_root.is_none() {
            return Err(Error::Kind("media: chunk_root required when size exceeds 1 MiB"));
        }
        let wrapped_blob_key = match bytes_field(v, "wrapped_key", "media: wrapped_key must be bytes") {
            Ok(x) => x,
            Err(e) => {
                return Err(e);
            },
        };
        Ok(Media { blob, size, chunk_root, codec, duration_ms, width, height, wrapped_blob_key })
    }
}


/// A transcoded rendition of a manifest's original.
#[derive(Debug, PartialEq, Eq)]
pub struct Rendition {
    /// The rendition's media descriptor.
    pub media: Media,
    /// Bitrate in bits per second.
    pub bitrate: u64,
    /// The identity and key that produced the rendition.
    pub produced_by: (IdentityId, Vec<u8>),
    /// Signature by the producing key over the derivation statement.
    pub derivation_sig: Vec<u8>,
}

/// The content of a rendition.
pub struct RenditionModel {
    pub media: MediaModel,
    pub bitrate: u64,
    pub produced_by: (Seq<u8>, Seq<u8>),
    pub derivation_sig: Seq<u8>,
}

impl Clone for Media {
    fn clone(&self) -> (r: Media)
        ensures
            r@ == self@,
    {
        Media {
            blob: BlobId(self.blob.0),
            size: self.size,
            chunk_root: self.chunk_root,
            codec: self.codec.clone(),
            duration_ms: self.duration_ms,
            width: self.width,
            height: self.height,
            wrapped_blob_key: match &self.wrapped_blob_key {
                Some(k) => Some(crate::text::bytes_to_vec(k.as_slice())),
                None => None,
            },
        }
    }
}

impl Clone for Rendition {
    fn clone(&self) -> (r: Rendition)
        ensures
            r@ == self@,
    {
        Rendition {
            media: self.media.clone(),
            bitrate: self.bitrate,
            produced_by: (IdentityId(self.produced_by.0.0), crate::text::bytes_to_vec(self.produced_by.1.as_slice())),
            derivation_sig: crate::text::bytes_to_vec(self.derivation_sig.as_slice()),
        }
    }
}

impl View for Rendition {
    type V = RenditionModel;

    open spec fn view(&self) -> RenditionModel {
        RenditionModel {
            media: self.media@,
            bitrate: self.bitrate,
            produced_by: (self.produced_by.0.0@, self.produced_by.1@),
            derivation_sig: self.derivation_sig@,
        }
    }
}

/// The `produced_by` pair `[identity, key]` of a rendition map.
pub open spec fn produced_by_of(m: Model) -> Option<(Seq<u8>, Seq<u8>)> {
    match spec_map_get(m, Model::Text("produced_by"@)) {
        Some(Model::Array(items)) => if items.len() == 2 && is_id32(items[0]) && items[1] is Bytes {
            Some((items[0]->Bytes_0, items[1]->Bytes_0))
        } else {
            None
        },
        _ => None,
    }
}

/// A rendition read from a map.
pub open spec fn rendition_of(m: Model) -> Option<RenditionModel> {
    match (media_of(m), req_u64(m, "bitrate"@), produced_by_of(m), req_bytes(m, "derivation_sig"@)) {
        (Some(media), Some(bitrate), Some(pb), Some(sig)) => Some(
            RenditionModel { media, bitrate, produced_by: pb, derivation_sig: sig },
        ),
        _ => None,
    }
}

/// [`rendition_of`] as a function value.
pub open spec fn rendition_fn() -> spec_fn(Model) -> Option<RenditionModel> {
    |m: Model| rendition_of(m)
}

/// The map a rendition is written as: its media entries, then bitrate,
/// producer and derivation signature.
pub open spec fn rendition_value(r: RenditionModel) -> Model {
    Model::Dict(
        media_entries(r.media) + seq![
            (Model::Text("bitrate"@), Model::Uint(r.bitrate)),
            (
                Model::Text("produced_by"@),
                Model::Array(seq![Model::Bytes(r.produced_by.0), Model::Bytes(r.produced_by.1)]),
            ),
            (Model::Text("derivation_sig"@), Model::Bytes(r.derivation_sig)),
        ],
    )
}

/// The contents of a list of renditions.
pub open spec fn rendition_views(v: Seq<Rendition>) -> Seq<RenditionModel> {
    v.map_values(|x: Rendition| x@)
}

impl Rendition {
    pub fn to_value(&self) -> (v: Value)
        ensures
            v@ == rendition_value(self@),
    {
        let mut e = self.media.entries();
        let ghost base = e@;
        let pb = vec![Value::Bytes(bytes_to_vec(self.produced_by.0.as_bytes())), Value::Bytes(self.produced_by.1.clone())];
        proof {
            lemma_model_list(pb@);
            assert(model_list(pb@) =~= seq![Model::Bytes(self.produced_by.0.0@), Model::Bytes(self.produced_by.1@)]);
        }
        e.push((text_value("bitrate"), Value::Uint(self.bitrate)));
        e.push((text_value("produced_by"), Value::Array(pb)));
        e.push((text_value("derivation_sig"), Value::Bytes(self.derivation_sig.clone())));
        proof {
            lemma_model_entries(e@);
            lemma_model_entries(base);
            let want = rendition_value(self@)->Dict_0;
            assert forall|k: int| 0 <= k < e@.len() implies #[trigger] model_entries(e@)[k] == want[k] by {
                if k < base.len() {
                    assert(e@[k] == base[k]);
                    assert(model_entries(base)[k] == media_entries(self@.media)[k]);
                }
            }
            assert(model_entries(e@) =~= want);
        }
        Value::Dict(e)
    }

    pub fn parse(v: &Value) -> (res: Result<Rendition, Error>)
        ensures
            match rendition_of(v@) {
                None => res matches Err(e) && e is Kind,
                Some(m) => res matches Ok(x) && x@ == m,
            },
    {
        let media = match Media::parse(v) {
            Ok(x) => x,
            Err(e) => {
                return Err(e);
            },
        };
        let bitrate = match required_u64(v, "bitrate", "rendition: bitrate required") {
            Ok(x) => x,
            Err(e) => {
                return Err(e);
            },
        };
        let produced_by_v = match v.map_get("produced_by") {
            Some(x) => x,
            None => {
                return Err(Error::Kind("rendition: produced_by required"));
            },
        };
        let arr = match produced_by_v.as_array() {
            Some(a) => a,
            None => {
                return Err(Error::Kind("rendition: produced_by must be [identity, key]"));
            },
        };
        proof {
            lemma_model_list(arr@);
        }
        if arr.len() != 2 {
            return Err(Error::Kind("rendition: produced_by must have exactly 2 elements"));
        }
        let identity_bytes = match arr[0].as_bytes() {
            Some(b) => b,
            None => {
                return Err(Error::Kind("rendition: produced_by identity must be bytes"));
            },
        };
        if identity_bytes.len() != 32 {
            return Err(Error::Kind("rendition: produced_by identity must be 32 bytes"));
        }
        let identity = array32(identity_bytes);
        let key = match arr[1].as_bytes() {
            Some(b) => bytes_to_vec(b),
            None => {
                return Err(Error::Kind("rendition: produced_by key must be bytes"));
            },
        };
        let derivation_sig = match required_bytes(v, "derivation_sig", "rendition: derivation_sig required") {
            Ok(x) => x,
            Err(e) => {
                return Err(e);
            },
        };
        Ok(Rendition { media, bitrate, produced_by: (IdentityId(identity), key), derivation_sig })
    }
}

/// Reads an optional array of renditions; empty when absent.
fn parse_renditions(body: &Value, key: &str, msg: &'static str) -> (res: Result<Vec<Rendition>, Error>)
    ensures
        match items_at(body@, key@, rendition_fn()) {
            None => res matches Err(e) && e is Kind,
            Some(ps) => res matches Ok(v) && rendition_views(v@) == ps,
        },
        array_at(body@, key@) is None ==> res == Err::<Vec<Rendition>, Error>(Error::Kind(msg)),
{
    let arr = match array_field(body, key, msg) {
        Err(e) => {
            return Err(e);
        },
        Ok(None) => {
            let v: Vec<Rendition> = Vec::new();
            assert(rendition_views(v@) =~= Seq::<RenditionModel>::empty());
            return Ok(v);
        },
        Ok(Some(a)) => a,
    };
    proof {
        lemma_model_list(arr@);
    }
    let ghost ms = model_list(arr@);
    let mut out: Vec<Rendition> = Vec::new();
    let mut i: usize = 0;
    while i < arr.len()
        invariant
            array_at(body@, key@) is Some && array_at(body@, key@)->0 is Some,
            i <= arr.len(),
            out.len() == i,
            ms == model_list(arr@),
            ms.len() == arr.len(),
            items_at(body@, key@, rendition_fn()) == items_of(ms, rendition_fn()),
            forall|k: int| 0 <= k < arr.len() ==> #[trigger] ms[k] == arr@[k]@,
            forall|k: int| 0 <= k < i ==> #[trigger] rendition_of(ms[k]) == Some(out@[k]@),
        decreases arr.len() - i,
    {
        match Rendition::parse(&arr[i]) {
            Ok(h) => {
                out.push(h);
            },
            Err(e) => {
                assert(rendition_fn()(ms[i as int]) is None);
                return Err(e);
            },
        }
        i = i + 1;
    }
    proof {
        assert forall|k: int| 0 <= k < ms.len() implies (#[trigger] rendition_fn()(ms[k])) is Some by {
            assert(rendition_of(ms[k]) == Some(out@[k]@));
        }
        assert(rendition_views(out@) =~= ms.map_values(|m: Model| rendition_fn()(m)->0));
    }
    Ok(out)
}

/// Writes a list of renditions.
fn renditions_value(v: &Vec<Rendition>) -> (r: Value)
    ensures
        r@ == Model::Array(rendition_views(v@).map_values(|x: RenditionModel| rendition_value(x))),
{
    let mut out: Vec<Value> = Vec::new();
    let mut i: usize = 0;
    while i < v.len()
        invariant
            i <= v.len(),
            out.len() == i,
            forall|k: int| 0 <= k < i ==> #[trigger] out@[k]@ == rendition_value(v@[k]@),
        decreases v.len() - i,
    {
        out.push(v[i].to_value());
        i = i + 1;
    }
    proof {
        lemma_model_list(out@);
        let want = rendition_views(v@).map_values(|x: RenditionModel| rendition_value(x));
        assert forall|k: int| 0 <= k < out@.len() implies #[trigger] model_list(out@)[k] == want[k] by {
            assert(model_list(out@)[k] == out@[k]@);
        }
        assert(model_list(out@) =~= want);
    }
    Value::Array(out)
}

/// A caption track.
#[derive(Debug, Clone, PartialEq, Eq)]
pub struct Caption {
    /// The caption blob.
    pub blob: BlobId,
    /// Language tag, non-empty, at most 64 bytes.
    pub language: String,
    /// Caption format, non-empty, at most 64 bytes.
    pub format: String,
    /// The blob key wrapped for the content key (the `wrapped_key` key).
    pub wrapped_blob_key: Option<Vec<u8>>,
}

/// The content of a caption track.
pub struct CaptionModel {
    pub blob: Seq<u8>,
    pub language: Seq<char>,
    pub format: Seq<char>,
    pub wrapped_blob_key: Option<Seq<u8>>,
}

impl View for Caption {
    type V = CaptionModel;

    open spec fn view(&self) -> CaptionModel {
        CaptionModel {
            blob: self.blob.0@,
            language: self.language@,
            format: self.format@,
            wrapped_blob_key: opt_bytes(self.wrapped_blob_key),
        }
    }
}

/// A caption track read from a map.
pub open spec fn caption_of(m: Model) -> Option<CaptionModel> {
    match (
        req_bytes32(m, "blob"@),
        req_nonempty_text(m, "language"@, 64),
        req_nonempty_text(m, "format"@, 64),
        bytes_at(m, "wrapped_key"@),
    ) {
        (Some(blob), Some(language), Some(format), Some(w)) => Some(
            CaptionModel { blob, language, format, wrapped_blob_key: w },
        ),
        _ => None,
    }
}

/// [`caption_of`] as a function value.
pub open spec fn caption_fn() -> spec_fn(Model) -> Option<CaptionModel> {
    |m: Model| caption_of(m)
}

/// The map a caption track is written as.
pub open spec fn caption_value(c: CaptionModel) -> Model {
    Model::Dict(
        seq![
            (Model::Text("blob"@), Model::Bytes(c.blob)),
            (Model::Text("language"@), Model::Text(c.language)),
            (Model::Text("format"@), Model::Text(c.format)),
        ] + match c.wrapped_blob_key {
            Some(k) => seq![(Model::Text("wrapped_key"@), Model::Bytes(k))],
            None => Seq::empty(),
        },
    )
}

/// The contents of a list of caption tracks.
pub open spec fn caption_views(v: Seq<Caption>) -> Seq<CaptionModel> {
    v.map_values(|x: Caption| x@)
}

impl Caption {
    pub fn to_value(&self) -> (v: Value)
        ensures
            v@ == caption_value(self@),
    {
        let mut e = vec![
            (text_value("blob"), Value::Bytes(bytes_to_vec(self.blob.as_bytes()))),
            (text_value("language"), Value::Text(self.language.clone())),
            (text_value("format"), Value::Text(self.format.clone())),
        ];
        match &self.wrapped_blob_key {
            Some(k) => {
                e.push((text_value("wrapped_key"), Value::Bytes(k.clone())));
            },
            None => {},
        }
        proof {
            lemma_model_entries(e@);
            assert(model_entries(e@) =~= caption_value(self@)->Dict_0);
        }
        Value::Dict(e)
    }

    pub fn parse(v: &Value) -> (res: Result<Caption, Error>)
        ensures
            match caption_of(v@) {
                None => res matches Err(e) && e is Kind,
                Some(m) => res matches Ok(x) && x@ == m,
            },
    {
        let blob = match required_blob_id(v, "blob", "caption: blob required (32 bytes)") {
            Ok(x) => x,
            Err(e) => {
                return Err(e);
            },
        };
        let language = match required_nonempty_text(v, "language", 64, "caption: language required") {
            Ok(x) => x,
            Err(e) => {
                return Err(e);
            },
        };
        let format = match required_nonempty_text(v, "format", 64, "caption: format required") {
            Ok(x) => x,
            Err(e) => {
                return Err(e);
            },
        };
        let wrapped_blob_key = match bytes_field(v, "wrapped_key", "caption: wrapped_key must be bytes") {
            Ok(x) => x,
            Err(e) => {
                return Err(e);
            },
        };
        Ok(Caption { blob, language, format, wrapped_blob_key })
    }
}

/// Reads an optional array of caption tracks; empty when absent.
fn parse_captions(body: &Value, key: &str, msg: &'static str) -> (res: Result<Vec<Caption>, Error>)
    ensures
        match items_at(body@, key@, caption_fn()) {
            None => res matches Err(e) && e is Kind,
            Some(ps) => res matches Ok(v) && caption_views(v@) == ps,
        },
        array_at(body@, key@) is None ==> res == Err::<Vec<Caption>, Error>(Error::Kind(msg)),
{
    let arr = match array_field(body, key, msg) {
        Err(e) => {
            return Err(e);
        },
        Ok(None) => {
            let v: Vec<Caption> = Vec::new();
            assert(caption_views(v@) =~= Seq::<CaptionModel>::empty());
            return Ok(v);
        },
        Ok(Some(a)) => a,
    };
    proof {
        lemma_model_list(arr@);
    }
    let ghost ms = model_list(arr@);
    let mut out: Vec<Caption> = Vec::new();
    let mut i: usize = 0;
    while i < arr.len()
        invariant
            array_at(body@, key@) is Some && array_at(body@, key@)->0 is Some,
            i <= arr.len(),
            out.len() == i,
            ms == model_list(arr@),
            ms.len() == arr.len(),
            items_at(body@, key@, caption_fn()) == items_of(ms, caption_fn()),
            forall|k: int| 0 <= k < arr.len() ==> #[trigger] ms[k] == arr@[k]@,
            forall|k: int| 0 <= k < i ==> #[trigger] caption_of(ms[k]) == Some(out@[k]@),
        decreases arr.len() - i,
    {
        match Caption::parse(&arr[i]) {
            Ok(h) => {
                out.push(h);
            },
            Err(e) => {
                assert(caption_fn()(ms[i as int]) is None);
                return Err(e);
            },
        }
        i = i + 1;
    }
    proof {
        assert forall|k: int| 0 <= k < ms.len() implies (#[trigger] caption_fn()(ms[k])) is Some by {
            assert(caption_of(ms[k]) == Some(out@[k]@));
        }
        assert(caption_views(out@) =~= ms.map_values(|m: Model| caption_fn()(m)->0));
    }
    Ok(out)
}

/// Writes a list of caption tracks.
fn captions_value(v: &Vec<Caption>) -> (r: Value)
    ensures
        r@ == Model::Array(caption_views(v@).map_values(|x: CaptionModel| caption_value(x))),
{
    let mut out: Vec<Value> = Vec::new();
    let mut i: usize = 0;
    while i < v.len()
        invariant
            i <= v.len(),
            out.len() == i,
            forall|k: int| 0 <= k < i ==> #[trigger] out@[k]@ == caption_value(v@[k]@),
        decreases v.len() - i,
    {
        out.push(v[i].to_value());
        i = i + 1;
    }
    proof {
        lemma_model_list(out@);
        let want = caption_views(v@).map_values(|x: CaptionModel| caption_value(x));
        assert forall|k: int| 0 <= k < out@.len() implies #[trigger] model_list(out@)[k] == want[k] by {
            assert(model_list(out@)[k] == out@[k]@);
        }
        assert(model_list(out@) =~= want);
    }
    Value::Array(out)
}


// ---------------------------------------------------------------------
// Manifest
// ---------------------------------------------------------------------

/// A video manifest.
#[derive(Debug, Clone, PartialEq, Eq)]
pub struct Manifest {
    /// Title, non-empty, at most 512 bytes.
    pub title: String,
    /// Description, at most 16384 bytes.
    pub description: Option<String>,
    /// Tags, at most 32, each at most 64 bytes.
    pub tags: Vec<String>,
    /// Language tag.
    pub language: Option<String>,
    /// The original upload.
    pub original: Media,
    /// Transcoded renditions.
    pub renditions: Vec<Rendition>,
    /// Caption tracks.
    pub captions: Vec<Caption>,
    /// Thumbnail image blob.
    pub thumbnail: Option<BlobId>,
    /// Content encryption.
    pub encryption: Option<Encryption>,
    /// License token, 1 to 64 bytes.
    pub license: String,
    /// Sponsored segments.
    pub sponsorship: Vec<Sponsor>,
    /// Payment pointers.
    pub payment: Vec<PaymentPointer>,
    /// Mirror hints.
    pub hints: Vec<Hint>,
    /// The channel the manifest is published into (its one ref).
    pub channel: Option<RecordId>,
}

/// The content of a manifest.
pub struct ManifestModel {
    pub title: Seq<char>,
    pub description: Option<Seq<char>>,
    pub tags: Seq<Seq<char>>,
    pub language: Option<Seq<char>>,
    pub original: MediaModel,
    pub renditions: Seq<RenditionModel>,
    pub captions: Seq<CaptionModel>,
    pub thumbnail: Option<Seq<u8>>,
    pub encryption: Option<EncryptionModel>,
    pub license: Seq<char>,
    pub sponsorship: Seq<SponsorModel>,
    pub payment: Seq<(u64, Seq<char>)>,
    pub hints: Seq<(u64, Seq<char>)>,
    pub channel: Option<Seq<u8>>,
}

/// The content of an optional encryption descriptor.
pub open spec fn opt_encryption(o: Option<Encryption>) -> Option<EncryptionModel> {
    match o {
        Some(e) => Some(e@),
        None => None,
    }
}

/// The record id of an optional record id.
pub open spec fn opt_record(o: Option<RecordId>) -> Option<Seq<u8>> {
    match o {
        Some(r) => Some(r.0@),
        None => None,
    }
}

impl View for Manifest {
    type V = ManifestModel;

    open spec fn view(&self) -> ManifestModel {
        ManifestModel {
            title: self.title@,
            description: opt_text(self.description),
            tags: texts(self.tags@),
            language: opt_text(self.language),
            original: self.original@,
            renditions: rendition_views(self.renditions@),
            captions: caption_views(self.captions@),
            thumbnail: opt_blob(self.thumbnail),
            encryption: opt_encryption(self.encryption),
            license: self.license@,
            sponsorship: sponsor_views(self.sponsorship@),
            payment: payment_views(self.payment@),
            hints: hint_views(self.hints@),
            channel: opt_record(self.channel),
        }
    }
}

/// The optional channel of a manifest: no refs, or one record ref.
pub open spec fn manifest_channel(r: RecordModel) -> Option<Option<Seq<u8>>> {
    if r.refs.len() == 0 {
        Some(None)
    } else if r.refs.len() == 1 {
        match ref_id(r.refs[0]) {
            Some(h) => Some(Some(h)),
            None => None,
        }
    } else {
        None
    }
}

/// The refs of a manifest: one record ref to its channel, if any.
pub open spec fn channel_refs(c: Option<RecordId>) -> Seq<Ref> {
    match c {
        Some(id) => seq![Ref { ref_type: 0, hash: id.0 }],
        None => Seq::empty(),
    }
}

/// The original media descriptor of a manifest body.
pub open spec fn original_of(b: Model) -> Option<MediaModel> {
    match spec_map_get(b, Model::Text("original"@)) {
        Some(m) => media_of(m),
        None => None,
    }
}

/// The optional encryption descriptor of a manifest body; null counts
/// as absent.
pub open spec fn encryption_at(b: Model) -> Option<Option<EncryptionModel>> {
    match spec_map_get(b, Model::Text("encryption"@)) {
        None => Some(None),
        Some(Model::Null) => Some(None),
        Some(m) => match encryption_of(m) {
            Some(e) => Some(Some(e)),
            None => None,
        },
    }
}

/// A 64-byte wrapped key is present.
pub open spec fn wrapped64(k: Option<Seq<u8>>) -> bool {
    k matches Some(x) && x.len() == 64
}

/// Whether every blob of an encrypted manifest carries a 64-byte
/// wrapped key.
pub open spec fn all_wrapped(m: ManifestModel) -> bool {
    &&& wrapped64(m.original.wrapped_blob_key)
    &&& forall|i: int| 0 <= i < m.renditions.len() ==> wrapped64(#[trigger] m.renditions[i].media.wrapped_blob_key)
    &&& forall|i: int| 0 <= i < m.captions.len() ==> wrapped64(#[trigger] m.captions[i].wrapped_blob_key)
}

/// The manifest a valid record holds.
pub open spec fn manifest_model(r: RecordModel) -> ManifestModel {
    let b = r.body;
    ManifestModel {
        title: req_nonempty_text(b, "title"@, 512)->0,
        description: text_at(b, "description"@, 16384)->0,
        tags: text_array_at(b, "tags"@, 64)->0,
        language: text_at(b, "language"@, unbounded())->0,
        original: original_of(b)->0,
        renditions: items_at(b, "renditions"@, rendition_fn())->0,
        captions: items_at(b, "captions"@, caption_fn())->0,
        thumbnail: bytes32_at(b, "thumbnail"@)->0,
        encryption: encryption_at(b)->0,
        license: req_text(b, "license"@, 4096)->0,
        sponsorship: items_at(b, "sponsorship"@, sponsor_fn())->0,
        payment: pairs_at(b, "payment"@)->0,
        hints: pairs_at(b, "hints"@)->0,
        channel: manifest_channel(r)->0,
    }
}

/// Whether a record is a valid manifest: at most one (channel) record
/// ref; a title; at most 32 tags; a valid original; well-formed
/// renditions, captions, sponsorship, payment and hints; a 1-64 byte
/// license; and, when encrypted, a 64-byte wrapped key on every blob.
pub open spec fn manifest_ok(r: RecordModel) -> bool {
    let b = r.body;
    &&& manifest_channel(r) is Some
    &&& req_nonempty_text(b, "title"@, 512) is Some
    &&& text_at(b, "description"@, 16384) is Some
    &&& text_array_at(b, "tags"@, 64) is Some
    &&& text_array_at(b, "tags"@, 64)->0.len() <= 32
    &&& text_at(b, "language"@, unbounded()) is Some
    &&& original_of(b) is Some
    &&& items_at(b, "renditions"@, rendition_fn()) is Some
    &&& items_at(b, "captions"@, caption_fn()) is Some
    &&& bytes32_at(b, "thumbnail"@) is Some
    &&& encryption_at(b) is Some
    &&& req_text(b, "license"@, 4096) is Some
    &&& license_ok(req_text(b, "license"@, 4096)->0)
    &&& items_at(b, "sponsorship"@, sponsor_fn()) is Some
    &&& pairs_at(b, "payment"@) is Some
    &&& pairs_at(b, "hints"@) is Some
    &&& (encryption_at(b)->0 is Some ==> all_wrapped(manifest_model(r)))
}

/// The manifest a record holds, if it is a valid manifest.
pub open spec fn manifest_of(r: RecordModel) -> Option<ManifestModel> {
    if manifest_ok(r) {
        Some(manifest_model(r))
    } else {
        None
    }
}


/// The body a manifest is written as: title, original and license, then
/// each optional field that is set or non-empty.
pub open spec fn manifest_value(m: ManifestModel) -> Model {
    Model::Dict(manifest_entries_late(m, manifest_entries_early(m)))
}

/// The first entries of a manifest body, up to the captions.
pub open spec fn manifest_entries_early(m: ManifestModel) -> Seq<(Model, Model)> {
    let e0 = seq![
        (Model::Text("title"@), Model::Text(m.title)),
        (Model::Text("original"@), Model::Dict(media_entries(m.original))),
        (Model::Text("license"@), Model::Text(m.license)),
    ];
    let e1 = push_if(e0, m.description is Some, (Model::Text("description"@), Model::Text(m.description->0)));
    let e2 = push_if(e1, m.tags.len() > 0, (Model::Text("tags"@), strings_value(m.tags)));
    let e3 = push_if(e2, m.language is Some, (Model::Text("language"@), Model::Text(m.language->0)));
    let e4 = push_if(
        e3,
        m.renditions.len() > 0,
        (Model::Text("renditions"@), Model::Array(m.renditions.map_values(|x: RenditionModel| rendition_value(x)))),
    );
    push_if(
        e4,
        m.captions.len() > 0,
        (Model::Text("captions"@), Model::Array(m.captions.map_values(|x: CaptionModel| caption_value(x)))),
    )
}

/// The remaining entries of a manifest body, appended to `e5`.
pub open spec fn manifest_entries_late(m: ManifestModel, e5: Seq<(Model, Model)>) -> Seq<(Model, Model)> {
    let e6 = push_if(e5, m.thumbnail is Some, (Model::Text("thumbnail"@), Model::Bytes(m.thumbnail->0)));
    let e7 = push_if(e6, m.encryption is Some, (Model::Text("encryption"@), encryption_value(m.encryption->0)));
    let e8 = push_if(
        e7,
        m.sponsorship.len() > 0,
        (Model::Text("sponsorship"@), Model::Array(m.sponsorship.map_values(|x: SponsorModel| sponsor_value(x)))),
    );
    let e9 = push_if(e8, m.payment.len() > 0, (Model::Text("payment"@), pairs_value(m.payment)));
    push_if(e9, m.hints.len() > 0, (Model::Text("hints"@), pairs_value(m.hints)))
}

/// Whether `e` is the error a record that holds no valid manifest is
/// refused with: the message of the first check it fails, in the order
/// of [`manifest_ok`]; where that check is inside a media, rendition,
/// caption, encryption, sponsorship or `[uint, text]` descriptor, a
/// `Kind` error.
pub open spec fn manifest_error(r: RecordModel, e: Error) -> bool {
    let b = r.body;
    let m = manifest_model(r);
    if r.refs.len() > 1 {
        e == Error::Kind("manifest: refs must be empty or one channel ref")
    } else if manifest_channel(r) is None {
        e == Error::Kind("manifest: channel ref must be a record ref")
    } else if req_nonempty_text(b, "title"@, 512) is None {
        e == Error::Kind("manifest: title required")
    } else if text_at(b, "description"@, 16384) is None {
        e == Error::Kind("manifest: description too long")
    } else if text_array_at(b, "tags"@, 64) is None {
        e == Error::Kind("manifest: tag too long (<=64 bytes)")
    } else if text_array_at(b, "tags"@, 64)->0.len() > 32 {
        e == Error::Kind("manifest: at most 32 tags")
    } else if text_at(b, "language"@, unbounded()) is None {
        e == Error::Kind("manifest: language must be text")
    } else if spec_map_get(b, Model::Text("original"@)) is None {
        e == Error::Kind("manifest: original required")
    } else if original_of(b) is None {
        e is Kind
    } else if array_at(b, "renditions"@) is None {
        e == Error::Kind("manifest: renditions must be an array")
    } else if items_at(b, "renditions"@, rendition_fn()) is None {
        e is Kind
    } else if array_at(b, "captions"@) is None {
        e == Error::Kind("manifest: captions must be an array")
    } else if items_at(b, "captions"@, caption_fn()) is None {
        e is Kind
    } else if bytes32_at(b, "thumbnail"@) is None {
        e == Error::Kind("manifest: thumbnail must be 32 bytes")
    } else if encryption_at(b) is None {
        e is Kind
    } else if req_text(b, "license"@, 4096) is None {
        e == Error::Kind("manifest: license required")
    } else if !license_ok(req_text(b, "license"@, 4096)->0) {
        e == Error::Kind("license must be 1-64 bytes")
    } else if array_at(b, "sponsorship"@) is None {
        e == Error::Kind("manifest: sponsorship must be an array")
    } else if items_at(b, "sponsorship"@, sponsor_fn()) is None {
        e is Kind
    } else if array_at(b, "payment"@) is None {
        e == Error::Kind("manifest: payment must be an array")
    } else if pairs_at(b, "payment"@) is None {
        e is Kind
    } else if array_at(b, "hints"@) is None {
        e == Error::Kind("manifest: hints must be an array")
    } else if pairs_at(b, "hints"@) is None {
        e is Kind
    } else if !wrapped64(m.original.wrapped_blob_key) {
        e == Error::Kind("manifest: encrypted original must carry a 64-byte wrapped_blob_key")
    } else if exists|i: int| 0 <= i < m.renditions.len() && !wrapped64(#[trigger] m.renditions[i].media.wrapped_blob_key) {
        e == Error::Kind("manifest: encrypted rendition must carry a 64-byte wrapped_blob_key")
    } else {
        e == Error::Kind("manifest: encrypted caption must carry a 64-byte wrapped_blob_key")
    }
}

/// The wrapped key is present and 64 bytes long.
fn require_wrapped_64(key: &Option<Vec<u8>>, msg: &'static str) -> (res: Result<(), Error>)
    ensures
        res is Ok <==> wrapped64(opt_bytes(*key)),
        res is Err ==> res == Err::<(), Error>(Error::Kind(msg)),
{
    match key {
        Some(k) => {
            if k.len() == 64 {
                Ok(())
            } else {
                Err(Error::Kind(msg))
            }
        },
        None => Err(Error::Kind(msg)),
    }
}

impl Manifest {
    /// Parse and validate a `manifest` record (see [`manifest_ok`]).
    ///
    /// Not checked here: the renditions' derivation signatures (see
    /// [`verify_derivation`]) and who produced them.
    #[verifier::loop_isolation(false)]
    pub fn parse(record: &Record) -> (res: Result<Manifest, Error>)
        ensures
            match manifest_of(record@) {
                None => res matches Err(e) && e is Kind && manifest_error(record@, e),
                Some(m) => res matches Ok(x) && x@ == m,
            },
    {
        if record.refs().len() > 1 {
            return Err(Error::Kind("manifest: refs must be empty or one channel ref"));
        }
        let channel = if record.refs().len() == 0 {
            None
        } else {
            match ref_record_id(&record.refs()[0], "manifest: channel ref must be a record ref") {
                Ok(id) => Some(id),
                Err(e) => {
                    return Err(e);
                },
            }
        };
        let body = record.body();
        let title = match required_nonempty_text(body, "title", 512, "manifest: title required") {
            Ok(x) => x,
            Err(e) => {
                return Err(e);
            },
        };
        let description = match text_field(body, "description", 16384, "manifest: description too long") {
            Ok(x) => x,
            Err(e) => {
                return Err(e);
            },
        };
        let tags = match text_array(body, "tags", 64, "manifest: tag too long (<=64 bytes)") {
            Ok(x) => x,
            Err(e) => {
                return Err(e);
            },
        };
        if tags.len() > 32 {
            return Err(Error::Kind("manifest: at most 32 tags"));
        }
        let language = match text_field(body, "language", usize::MAX, "manifest: language must be text") {
            Ok(x) => x,
            Err(e) => {
                return Err(e);
            },
        };
        let original_v = match body.map_get("original") {
            Some(v) => v,
            None => {
                return Err(Error::Kind("manifest: original required"));
            },
        };
        let original = match Media::parse(original_v) {
            Ok(x) => x,
            Err(e) => {
                return Err(e);
            },
        };
        let renditions = match parse_renditions(body, "renditions", "manifest: renditions must be an array") {
            Ok(x) => x,
            Err(e) => {
                return Err(e);
            },
        };
        let captions = match parse_captions(body, "captions", "manifest: captions must be an array") {
            Ok(x) => x,
            Err(e) => {
                return Err(e);
            },
        };
        let thumbnail = match blob_id_field(body, "thumbnail", "manifest: thumbnail must be 32 bytes") {
            Ok(x) => x,
            Err(e) => {
                return Err(e);
            },
        };
        let encryption = match body.map_get("encryption") {
            None => None,
            Some(v) => match v {
                Value::Null => None,
                _ => match Encryption::parse(v) {
                    Ok(x) => Some(x),
                    Err(e) => {
                        return Err(e);
                    },
                },
            },
        };
        let license = match required_text(body, "license", 4096, "manifest: license required") {
            Ok(x) => x,
            Err(e) => {
                return Err(e);
            },
        };
        match validate_license(license.as_str()) {
            Ok(()) => {},
            Err(e) => {
                return Err(e);
            },
        }
        let sponsorship = match parse_sponsors(body, "sponsorship", "manifest: sponsorship must be an array") {
            Ok(x) => x,
            Err(e) => {
                return Err(e);
            },
        };
        let payment = match parse_payments(body, "payment", "manifest: payment must be an array") {
            Ok(x) => x,
            Err(e) => {
                return Err(e);
            },
        };
        let hints = match parse_hints(body, "hints", "manifest: hints must be an array") {
            Ok(x) => x,
            Err(e) => {
                return Err(e);
            },
        };
        let m = Manifest {
            title,
            description,
            tags,
            language,
            original,
            renditions,
            captions,
            thumbnail,
            encryption,
            license,
            sponsorship,
            payment,
            hints,
            channel,
        };
        proof {
            assert(m@ == manifest_model(record@));
        }
        if m.encryption.is_some() {
            match require_wrapped_64(&m.original.wrapped_blob_key, "manifest: encrypted original must carry a 64-byte wrapped_blob_key") {
                Ok(()) => {},
                Err(e) => {
                    return Err(e);
                },
            }
            let mut i: usize = 0;
            while i < m.renditions.len()
                invariant
                    i <= m.renditions.len(),
                    m@ == manifest_model(record@),
                    m.encryption is Some,
                    forall|k: int| 0 <= k < i ==> wrapped64(#[trigger] m@.renditions[k].media.wrapped_blob_key),
                decreases m.renditions.len() - i,
            {
                match require_wrapped_64(&m.renditions[i].media.wrapped_blob_key, "manifest: encrypted rendition must carry a 64-byte wrapped_blob_key") {
                    Ok(()) => {},
                    Err(e) => {
                        assert(!wrapped64(m@.renditions[i as int].media.wrapped_blob_key));
                        return Err(e);
                    },
                }
                i = i + 1;
            }
            let mut j: usize = 0;
            while j < m.captions.len()
                invariant
                    j <= m.captions.len(),
                    m@ == manifest_model(record@),
                    m.encryption is Some,
                    forall|k: int| 0 <= k < j ==> wrapped64(#[trigger] m@.captions[k].wrapped_blob_key),
                decreases m.captions.len() - j,
            {
                match require_wrapped_64(&m.captions[j].wrapped_blob_key, "manifest: encrypted caption must carry a 64-byte wrapped_blob_key") {
                    Ok(()) => {},
                    Err(e) => {
                        assert(!wrapped64(m@.captions[j as int].wrapped_blob_key));
                        return Err(e);
                    },
                }
                j = j + 1;
            }
        }
        Ok(m)
    }

    /// The first entries of the body (see [`manifest_entries_early`]).
    fn entries_early(&self) -> (e: Vec<(Value, Value)>)
        ensures
            model_entries(e@) == manifest_entries_early(self@),
    {
        let ghost m = self@;
        let mut e: Vec<(Value, Value)> = Vec::new();
        proof {
            assert(model_entries(e@) =~= Seq::<(Model, Model)>::empty());
        }
        push_entry(&mut e, text_value("title"), Value::Text(self.title.clone()));
        push_entry(&mut e, text_value("original"), self.original.to_value());
        push_entry(&mut e, text_value("license"), Value::Text(self.license.clone()));
        let ghost g = model_entries(e@);
        match &self.description {
            Some(d) => push_entry(&mut e, text_value("description"), Value::Text(d.clone())),
            None => {},
        }
        let ghost g = push_if(g, m.description is Some, (Model::Text("description"@), Model::Text(m.description->0)));
        assert(model_entries(e@) == g);
        if self.tags.len() > 0 {
            push_entry(&mut e, text_value("tags"), strings_to_value(&self.tags));
        }
        let ghost g = push_if(g, m.tags.len() > 0, (Model::Text("tags"@), strings_value(m.tags)));
        assert(model_entries(e@) == g);
        match &self.language {
            Some(l) => push_entry(&mut e, text_value("language"), Value::Text(l.clone())),
            None => {},
        }
        let ghost g = push_if(g, m.language is Some, (Model::Text("language"@), Model::Text(m.language->0)));
        assert(model_entries(e@) == g);
        if self.renditions.len() > 0 {
            push_entry(&mut e, text_value("renditions"), renditions_value(&self.renditions));
        }
        let ghost g = push_if(
            g,
            m.renditions.len() > 0,
            (Model::Text("renditions"@), Model::Array(m.renditions.map_values(|x: RenditionModel| rendition_value(x)))),
        );
        assert(model_entries(e@) == g);
        if self.captions.len() > 0 {
            push_entry(&mut e, text_value("captions"), captions_value(&self.captions));
        }
        let ghost g = push_if(
            g,
            m.captions.len() > 0,
            (Model::Text("captions"@), Model::Array(m.captions.map_values(|x: CaptionModel| caption_value(x)))),
        );
        assert(model_entries(e@) == g);
        assert(g == manifest_entries_early(m));
        e
    }

    /// Appends the remaining entries (see [`manifest_entries_late`]).
    fn entries_late(&self, e: &mut Vec<(Value, Value)>)
        ensures
            model_entries(final(e)@) == manifest_entries_late(self@, model_entries(old(e)@)),
    {
        let ghost m = self@;
        let ghost g = model_entries(e@);
        match &self.thumbnail {
            Some(t) => push_entry(e, text_value("thumbnail"), Value::Bytes(bytes_to_vec(t.as_bytes()))),
            None => {},
        }
        let ghost g = push_if(g, m.thumbnail is Some, (Model::Text("thumbnail"@), Model::Bytes(m.thumbnail->0)));
        assert(model_entries(e@) == g);
        match &self.encryption {
            Some(enc) => push_entry(e, text_value("encryption"), enc.to_value()),
            None => {},
        }
        let ghost g = push_if(g, m.encryption is Some, (Model::Text("encryption"@), encryption_value(m.encryption->0)));
        assert(model_entries(e@) == g);
        if self.sponsorship.len() > 0 {
            push_entry(e, text_value("sponsorship"), sponsors_value(&self.sponsorship));
        }
        let ghost g = push_if(
            g,
            m.sponsorship.len() > 0,
            (Model::Text("sponsorship"@), Model::Array(m.sponsorship.map_values(|x: SponsorModel| sponsor_value(x)))),
        );
        assert(model_entries(e@) == g);
        if self.payment.len() > 0 {
            push_entry(e, text_value("payment"), payments_value(&self.payment));
        }
        let ghost g = push_if(g, m.payment.len() > 0, (Model::Text("payment"@), pairs_value(m.payment)));
        assert(model_entries(e@) == g);
        if self.hints.len() > 0 {
            push_entry(e, text_value("hints"), hints_value(&self.hints));
        }
        let ghost g = push_if(g, m.hints.len() > 0, (Model::Text("hints"@), pairs_value(m.hints)));
        assert(model_entries(e@) == g);
        assert(g == manifest_entries_late(m, model_entries(old(e)@)));
    }

    /// Build the body for this manifest (see [`manifest_value`]).
    pub fn to_body(&self) -> (v: Value)
        ensures
            v@ == manifest_value(self@),
    {
        let mut e = self.entries_early();
        self.entries_late(&mut e);
        Value::Dict(e)
    }

    /// The refs this manifest should carry: its channel, if any.
    pub fn refs(&self) -> (r: Vec<Ref>)
        ensures
            r@ == channel_refs(self.channel),
    {
        match self.channel {
            Some(id) => vec![Ref::record(id)],
            None => Vec::new(),
        }
    }
}


// ---------------------------------------------------------------------
// Rendition derivation statements
// ---------------------------------------------------------------------

/// The prefix of a derivation signature's message.
pub const DERIVATION_SIG_PREFIX: [u8; 22] = [
    101, 118, 101, 114, 109, 101, 115, 104, 58, 100, 101, 114, 105, 118, 97, 116, 105, 111, 110, 58, 118, 49,
];

/// A dimension: its number, or null when absent.
pub open spec fn dim_value(d: Option<u64>) -> Model {
    match d {
        Some(v) => Model::Uint(v),
        None => Model::Null,
    }
}

/// The statement a rendition's producer signs:
/// `[original, rendition, codec, width, height, bitrate]`.
pub open spec fn statement_model(
    original: Seq<u8>,
    rendition: Seq<u8>,
    codec: Seq<char>,
    width: Option<u64>,
    height: Option<u64>,
    bitrate: u64,
) -> Model {
    Model::Array(
        seq![
            Model::Bytes(original),
            Model::Bytes(rendition),
            Model::Text(codec),
            dim_value(width),
            dim_value(height),
            Model::Uint(bitrate),
        ],
    )
}

/// The message a derivation signature covers: the prefix, then the
/// BLAKE3 digest of the canonical statement.
pub open spec fn derivation_message(original: Seq<u8>, r: RenditionModel) -> Seq<u8> {
    DERIVATION_SIG_PREFIX@ + blake3_digest(
        enc(statement_model(original, r.media.blob, r.media.codec, r.media.width, r.media.height, r.bitrate)),
    )
}

/// Whether a rendition's derivation signature verifies against the
/// original blob: a 32-byte producer key that is a valid point, a
/// 64-byte signature, and strict verification of the message.
pub open spec fn derivation_ok(r: RenditionModel, original: Seq<u8>) -> bool {
    &&& r.produced_by.1.len() == 32
    &&& ed25519_valid_point(r.produced_by.1)
    &&& r.derivation_sig.len() == 64
    &&& ed25519_accepts(r.produced_by.1, derivation_message(original, r), r.derivation_sig)
}

proof fn lemma_statement_canonical(m: Model)
    requires
        m matches Model::Array(items) && items.len() == 6 && !(items[0] is Array) && !(items[0] is Dict)
            && !(items[1] is Array) && !(items[1] is Dict) && !(items[2] is Array) && !(items[2] is Dict)
            && !(items[3] is Array) && !(items[3] is Dict) && !(items[4] is Array) && !(items[4] is Dict)
            && !(items[5] is Array) && !(items[5] is Dict),
    ensures
        canon_ok(m),
        canon(m) == m,
{
    let items = m->Array_0;
    assert forall|k: int| 0 <= k <= 6 implies canon_ok_list(#[trigger] items.subrange(0, k))
        && canon_list(items.subrange(0, k)) == items.subrange(0, k) by {
        lemma_prefix_canonical(items, k);
    }
    assert(items.subrange(0, 6) =~= items);
}

proof fn lemma_prefix_canonical(items: Seq<Model>, k: int)
    requires
        0 <= k <= items.len(),
        forall|i: int| 0 <= i < items.len() ==> !(#[trigger] items[i] is Array) && !(items[i] is Dict),
    ensures
        canon_ok_list(items.subrange(0, k)),
        canon_list(items.subrange(0, k)) == items.subrange(0, k),
    decreases k,
{
    if k > 0 {
        lemma_prefix_canonical(items, k - 1);
        let p = items.subrange(0, k);
        assert(p.drop_last() =~= items.subrange(0, k - 1));
        let x = items[k - 1];
        assert(p.last() == x);
        assert(!(x is Array) && !(x is Dict));
        assert(canon(x) == x) by {
            match x {
                Model::Array(_) => {},
                Model::Dict(_) => {},
                _ => {},
            }
        }
        assert(canon_ok(x)) by {
            match x {
                Model::Array(_) => {},
                Model::Dict(_) => {},
                _ => {},
            }
        }
        assert(canon_list(p) == canon_list(p.drop_last()).push(canon(p.last())));
        assert(canon_list(p) =~= p);
    }
}

/// The canonical encoding of a derivation statement; always succeeds.
pub fn derivation_statement(
    original: &BlobId,
    rendition: &BlobId,
    codec: &str,
    width: Option<u64>,
    height: Option<u64>,
    bitrate: u64,
) -> (res: Result<Vec<u8>, Error>)
    ensures
        res matches Ok(b) && b@ == enc(statement_model(original.0@, rendition.0@, codec@, width, height, bitrate)),
{
    let w = match width {
        Some(v) => Value::Uint(v),
        None => Value::Null,
    };
    let h = match height {
        Some(v) => Value::Uint(v),
        None => Value::Null,
    };
    let items = vec![
        Value::Bytes(bytes_to_vec(original.as_bytes())),
        Value::Bytes(bytes_to_vec(rendition.as_bytes())),
        text_value(codec),
        w,
        h,
        Value::Uint(bitrate),
    ];
    let value = Value::Array(items);
    proof {
        lemma_model_list(items@);
        assert(model_list(items@) =~= statement_model(original.0@, rendition.0@, codec@, width, height, bitrate)->Array_0);
        lemma_statement_canonical(value@);
    }
    encode_canonical(&value)
}

/// Check a rendition's derivation signature against the original blob
/// (see [`derivation_ok`]).
pub fn verify_derivation(rendition: &Rendition, original: &BlobId) -> (res: Result<(), Error>)
    ensures
        res is Ok <==> derivation_ok(rendition@, original.0@),
        res matches Err(e) ==> e is Kind,
{
    let stmt = match derivation_statement(
        original,
        &rendition.media.blob,
        rendition.media.codec.as_str(),
        rendition.media.width,
        rendition.media.height,
        rendition.bitrate,
    ) {
        Ok(s) => s,
        Err(e) => {
            return Err(e);
        },
    };
    let hash = blake3_hash(stmt.as_slice());
    let mut msg: Vec<u8> = Vec::new();
    extend_bytes(&mut msg, &DERIVATION_SIG_PREFIX);
    extend_bytes(&mut msg, &hash);
    if rendition.produced_by.1.len() != 32 {
        return Err(Error::Kind("rendition: produced_by key must be 32 bytes"));
    }
    let key_bytes = array32(rendition.produced_by.1.as_slice());
    if !ed25519_key_ok(&key_bytes) {
        return Err(Error::Kind("rendition: produced_by key is invalid"));
    }
    if rendition.derivation_sig.len() != 64 {
        return Err(Error::Kind("rendition: derivation_sig must be 64 bytes"));
    }
    let sig = array64(rendition.derivation_sig.as_slice());
    proof {
        assert(msg@ =~= derivation_message(original.0@, rendition@));
    }
    if ed25519_verify(&key_bytes, msg.as_slice(), &sig) {
        Ok(())
    } else {
        Err(Error::Kind("rendition: derivation signature invalid"))
    }
}

// ---------------------------------------------------------------------
// Delegate
// ---------------------------------------------------------------------

/// A capability grant to another identity, or (with a ref to the grant
/// and `revoked = true`) its revocation.
#[derive(Debug, Clone, PartialEq, Eq)]
pub struct Delegate {
    /// The identity granted the capability.
    pub grantee: IdentityId,
    /// The capability, non-empty, at most 256 bytes.
    pub capability: String,
    /// Expiry (Unix seconds).
    pub expires_at: Option<i64>,
    /// For a revocation, the revoked grant (the one ref).
    pub target: Option<RecordId>,
}

/// The content of a delegate record.
pub struct DelegateModel {
    pub grantee: Seq<u8>,
    pub capability: Seq<char>,
    pub expires_at: Option<i64>,
    pub target: Option<Seq<u8>>,
}

impl View for Delegate {
    type V = DelegateModel;

    open spec fn view(&self) -> DelegateModel {
        DelegateModel {
            grantee: self.grantee.0@,
            capability: self.capability@,
            expires_at: self.expires_at,
            target: opt_record(self.target),
        }
    }
}

/// The revoked grant of a delegate record: no refs for a grant; one
/// record ref, with `revoked` set, for a revocation.
pub open spec fn delegate_target(r: RecordModel, revoked: bool) -> Option<Option<Seq<u8>>> {
    if revoked && r.refs.len() == 1 {
        match ref_id(r.refs[0]) {
            Some(h) => Some(Some(h)),
            None => None,
        }
    } else if !revoked && r.refs.len() == 0 {
        Some(None)
    } else {
        None
    }
}

/// The delegate a record holds, if it is a valid delegate.
pub open spec fn delegate_of(r: RecordModel) -> Option<DelegateModel> {
    let b = r.body;
    match (
        req_bytes32(b, "grantee"@),
        req_nonempty_text(b, "capability"@, 256),
        i64_at(b, "expires_at"@),
        bool_or_at(b, "revoked"@, false),
    ) {
        (Some(g), Some(c), Some(x), Some(rv)) => match delegate_target(r, rv) {
            Some(t) => Some(DelegateModel { grantee: g, capability: c, expires_at: x, target: t }),
            None => None,
        },
        _ => None,
    }
}

/// The body a delegate is written as.
pub open spec fn delegate_value(d: DelegateModel) -> Model {
    let e0 = seq![(Model::Text("grantee"@), Model::Bytes(d.grantee)), (Model::Text("capability"@), Model::Text(d.capability))];
    let e1 = push_if(e0, d.expires_at is Some, (Model::Text("expires_at"@), int_model(d.expires_at->0 as int)));
    let e2 = push_if(e1, d.target is Some, (Model::Text("revoked"@), Model::Bool(true)));
    Model::Dict(e2)
}

/// The refs a record carries for an optional record id.
pub open spec fn opt_ref(o: Option<RecordId>) -> Seq<Ref> {
    match o {
        Some(id) => seq![Ref { ref_type: 0, hash: id.0 }],
        None => Seq::empty(),
    }
}

impl Delegate {
    /// Parse and validate a `delegate` record (see [`delegate_of`]).
    ///
    /// Not checked here (needs the grant): that a revocation matches its
    /// grant; see [`check_delegate_revocation`].
    pub fn parse(record: &Record) -> (res: Result<Delegate, Error>)
        ensures
            match delegate_of(record@) {
                None => res matches Err(e) && e is Kind,
                Some(m) => res matches Ok(x) && x@ == m,
            },
    {
        let body = record.body();
        let grantee = match required_identity_id(body, "grantee", "delegate: grantee required (32 bytes)") {
            Ok(x) => x,
            Err(e) => {
                return Err(e);
            },
        };
        let capability = match required_nonempty_text(body, "capability", 256, "delegate: capability required") {
            Ok(x) => x,
            Err(e) => {
                return Err(e);
            },
        };
        let expires_at = match i64_field(body, "expires_at", "delegate: expires_at must be an int") {
            Ok(x) => x,
            Err(e) => {
                return Err(e);
            },
        };
        let revoked = match bool_or(body, "revoked", false, "delegate: revoked must be a bool") {
            Ok(x) => x,
            Err(e) => {
                return Err(e);
            },
        };
        let n = record.refs().len();
        let target = if revoked && n == 1 {
            match ref_record_id(&record.refs()[0], "delegate: revocation ref must be a record ref") {
                Ok(id) => Some(id),
                Err(e) => {
                    return Err(e);
                },
            }
        } else if !revoked && n == 0 {
            None
        } else {
            return Err(
                Error::Kind(
                    "delegate: refs must be empty for a grant, or exactly one record ref for a revocation (with revoked = true)",
                ),
            );
        };
        Ok(Delegate { grantee, capability, expires_at, target })
    }

    /// Build the body for this delegate (see [`delegate_value`]).
    pub fn to_body(&self) -> (v: Value)
        ensures
            v@ == delegate_value(self@),
    {
        let mut e: Vec<(Value, Value)> = Vec::new();
        proof {
            assert(model_entries(e@) =~= Seq::<(Model, Model)>::empty());
        }
        push_entry(&mut e, text_value("grantee"), Value::Bytes(bytes_to_vec(self.grantee.as_bytes())));
        push_entry(&mut e, text_value("capability"), Value::Text(self.capability.clone()));
        match self.expires_at {
            Some(t) => push_entry(&mut e, text_value("expires_at"), Value::from_i64(t)),
            None => {},
        }
        if self.target.is_some() {
            push_entry(&mut e, text_value("revoked"), Value::Bool(true));
        }
        proof {
            assert(model_entries(e@) =~= delegate_value(self@)->Dict_0);
        }
        Value::Dict(e)
    }

    /// The refs this record should carry: the revoked grant, if any.
    pub fn refs(&self) -> (r: Vec<Ref>)
        ensures
            r@ == opt_ref(self.target),
    {
        match self.target {
            Some(id) => vec![Ref::record(id)],
            None => Vec::new(),
        }
    }
}

/// Check that a revocation matches its grant: same author, grantee and
/// capability.
pub fn check_delegate_revocation(
    revocation_author: [u8; 32],
    revocation: &Delegate,
    grant_author: [u8; 32],
    grant: &Delegate,
) -> (res: Result<(), Error>)
    ensures
        res is Ok <==> (revocation_author@ == grant_author@ && revocation.grantee.0@ == grant.grantee.0@
            && revocation.capability@ == grant.capability@),
        revocation_author@ != grant_author@ ==> res == Err::<(), Error>(
            Error::Kind("delegate: revocation author must equal grant author"),
        ),
        revocation_author@ == grant_author@ && !(revocation.grantee.0@ == grant.grantee.0@
            && revocation.capability@ == grant.capability@) ==> res == Err::<(), Error>(
            Error::Kind("delegate: revocation grantee/capability must match the grant"),
        ),
{
    if !bytes_eq(&revocation_author, &grant_author) {
        return Err(Error::Kind("delegate: revocation author must equal grant author"));
    }
    if !bytes_eq(&revocation.grantee.0, &grant.grantee.0) || !str_eq(
        revocation.capability.as_str(),
        grant.capability.as_str(),
    ) {
        return Err(Error::Kind("delegate: revocation grantee/capability must match the grant"));
    }
    Ok(())
}

// ---------------------------------------------------------------------
// Supersede, retract, mirror, similarity
// ---------------------------------------------------------------------

/// A replacement body for an earlier record.
#[derive(Debug, Clone, PartialEq, Eq)]
pub struct Supersede {
    /// The superseded record (the one ref).
    pub target: RecordId,
    /// Its kind; never `rotation`.
    pub target_kind: u64,
    /// The replacement body, a map.
    pub replacement_body: Value,
}

/// The content of a supersede record.
pub struct SupersedeModel {
    pub target: Seq<u8>,
    pub target_kind: u64,
    pub replacement_body: Model,
}

impl View for Supersede {
    type V = SupersedeModel;

    open spec fn view(&self) -> SupersedeModel {
        SupersedeModel { target: self.target.0@, target_kind: self.target_kind, replacement_body: self.replacement_body@ }
    }
}

/// The record id of a record's one record ref.
pub open spec fn single_target(r: RecordModel) -> Option<Seq<u8>> {
    if r.refs.len() == 1 {
        ref_id(r.refs[0])
    } else {
        None
    }
}

/// The supersede a record holds, if it is a valid supersede: one record
/// ref, a target kind other than `rotation`, and a map `body`.
pub open spec fn supersede_of(r: RecordModel) -> Option<SupersedeModel> {
    match (single_target(r), req_u64(r.body, "target_kind"@), spec_map_get(r.body, Model::Text("body"@))) {
        (Some(t), Some(k), Some(rb)) => if k != KIND_ROTATION && rb is Dict {
            Some(SupersedeModel { target: t, target_kind: k, replacement_body: rb })
        } else {
            None
        },
        _ => None,
    }
}

impl Supersede {
    /// Parse and validate a `supersede` record (see [`supersede_of`]).
    pub fn parse(record: &Record) -> (res: Result<Supersede, Error>)
        ensures
            match supersede_of(record@) {
                None => res matches Err(e) && e is Kind,
                Some(m) => res matches Ok(x) && x@ == m,
            },
    {
        match refs_exact(record, 1, "supersede: refs must be exactly one target ref") {
            Ok(()) => {},
            Err(e) => {
                return Err(e);
            },
        }
        let target = match ref_record_id(&record.refs()[0], "supersede: ref must be a record ref") {
            Ok(x) => x,
            Err(e) => {
                return Err(e);
            },
        };
        let body = record.body();
        let target_kind = match required_u64(body, "target_kind", "supersede: target_kind required") {
            Ok(x) => x,
            Err(e) => {
                return Err(e);
            },
        };
        if target_kind == KIND_ROTATION {
            return Err(Error::Kind("supersede/target-rotation"));
        }
        let replacement_body = match body.map_get("body") {
            Some(v) => v.clone(),
            None => {
                return Err(Error::Kind("supersede: body required"));
            },
        };
        if replacement_body.as_map().is_none() {
            return Err(Error::Kind("supersede: body must be a map"));
        }
        Ok(Supersede { target, target_kind, replacement_body })
    }

    /// Build the body: the target kind and the replacement body.
    pub fn to_body(&self) -> (v: Value)
        ensures
            v@ == Model::Dict(
                seq![
                    (Model::Text("target_kind"@), Model::Uint(self.target_kind)),
                    (Model::Text("body"@), self.replacement_body@),
                ],
            ),
    {
        let e = vec![
            (text_value("target_kind"), Value::Uint(self.target_kind)),
            (text_value("body"), self.replacement_body.clone()),
        ];
        proof {
            lemma_model_entries(e@);
            assert(model_entries(e@) =~= seq![
                (Model::Text("target_kind"@), Model::Uint(self.target_kind)),
                (Model::Text("body"@), self.replacement_body@),
            ]);
        }
        Value::Dict(e)
    }

    /// The refs this record should carry: the target.
    pub fn refs(&self) -> (r: Vec<Ref>)
        ensures
            r@ == seq![Ref { ref_type: 0, hash: self.target.0 }],
    {
        vec![Ref::record(self.target)]
    }
}

/// A retraction of an earlier record.
#[derive(Debug, Clone, PartialEq, Eq)]
pub struct Retract {
    /// The retracted record (the one ref).
    pub target: RecordId,
    /// Why.
    pub reason: Option<String>,
}

/// The retraction a record holds: the target and the optional reason.
pub open spec fn retract_of(r: RecordModel) -> Option<(Seq<u8>, Option<Seq<char>>)> {
    match (single_target(r), text_at(r.body, "reason"@, unbounded())) {
        (Some(t), Some(reason)) => Some((t, reason)),
        _ => None,
    }
}

impl Retract {
    /// Parse and validate a `retract` record (see [`retract_of`]).
    ///
    /// Not checked here (needs the target): that the target is not a
    /// rotation; see [`check_retract_target_kind`].
    pub fn parse(record: &Record) -> (res: Result<Retract, Error>)
        ensures
            match retract_of(record@) {
                None => res matches Err(e) && e is Kind,
                Some(m) => res matches Ok(x) && x.target.0@ == m.0 && opt_text(x.reason) == m.1,
            },
    {
        match refs_exact(record, 1, "retract: refs must be exactly one target ref") {
            Ok(()) => {},
            Err(e) => {
                return Err(e);
            },
        }
        let target = match ref_record_id(&record.refs()[0], "retract: ref must be a record ref") {
            Ok(x) => x,
            Err(e) => {
                return Err(e);
            },
        };
        let reason = match text_field(record.body(), "reason", usize::MAX, "retract: reason must be text") {
            Ok(x) => x,
            Err(e) => {
                return Err(e);
            },
        };
        Ok(Retract { target, reason })
    }

    /// Build the body: the reason, when given.
    pub fn to_body(&self) -> (v: Value)
        ensures
            v@ == Model::Dict(
                match self.reason {
                    Some(r) => seq![(Model::Text("reason"@), Model::Text(r@))],
                    None => Seq::empty(),
                },
            ),
    {
        let mut e: Vec<(Value, Value)> = Vec::new();
        match &self.reason {
            Some(r) => {
                e.push((text_value("reason"), Value::Text(r.clone())));
            },
            None => {},
        }
        proof {
            lemma_model_entries(e@);
            assert(model_entries(e@) =~= match self.reason {
                Some(r) => seq![(Model::Text("reason"@), Model::Text(r@))],
                None => Seq::empty(),
            });
        }
        Value::Dict(e)
    }

    /// The refs this record should carry: the target.
    pub fn refs(&self) -> (r: Vec<Ref>)
        ensures
            r@ == seq![Ref { ref_type: 0, hash: self.target.0 }],
    {
        vec![Ref::record(self.target)]
    }
}

/// A retraction's target must not be a rotation record.
pub fn check_retract_target_kind(target_kind: u64) -> (res: Result<(), Error>)
    ensures
        res is Ok <==> target_kind != KIND_ROTATION,
        res matches Err(e) ==> e is Kind,
{
    if target_kind == KIND_ROTATION {
        Err(Error::Kind("retract: target must not be a rotation record"))
    } else {
        Ok(())
    }
}

/// Additional locations for referenced records or blobs.
#[derive(Debug, Clone, PartialEq, Eq)]
pub struct Mirror {
    /// The mirrored records or blobs (the refs, at least one).
    pub targets: Vec<Ref>,
    /// Where to find them.
    pub hints: Vec<Hint>,
}

/// The mirror a record holds: its refs (at least one) and its hints.
pub open spec fn mirror_of(r: RecordModel) -> Option<(Seq<Ref>, Seq<(u64, Seq<char>)>)> {
    if r.refs.len() >= 1 {
        match pairs_at(r.body, "hints"@) {
            Some(h) => Some((r.refs, h)),
            None => None,
        }
    } else {
        None
    }
}

/// Copies a list of refs.
fn copy_refs(v: &[Ref]) -> (r: Vec<Ref>)
    ensures
        r@ == v@,
{
    let mut out: Vec<Ref> = Vec::new();
    let mut i: usize = 0;
    while i < v.len()
        invariant
            i <= v.len(),
            out@ == v@.subrange(0, i as int),
        decreases v.len() - i,
    {
        out.push(v[i]);
        i = i + 1;
    }
    assert(out@ =~= v@);
    out
}

impl Mirror {
    /// Parse and validate a `mirror` record (see [`mirror_of`]).
    pub fn parse(record: &Record) -> (res: Result<Mirror, Error>)
        ensures
            match mirror_of(record@) {
                None => res matches Err(e) && e is Kind,
                Some(m) => res matches Ok(x) && x.targets@ == m.0 && hint_views(x.hints@) == m.1,
            },
    {
        match refs_min(record, 1, "mirror: at least one ref required") {
            Ok(()) => {},
            Err(e) => {
                return Err(e);
            },
        }
        let targets = copy_refs(record.refs());
        let hints = match parse_hints(record.body(), "hints", "mirror: hints must be an array") {
            Ok(x) => x,
            Err(e) => {
                return Err(e);
            },
        };
        Ok(Mirror { targets, hints })
    }

    /// Build the body: the hints, when there are any.
    pub fn to_body(&self) -> (v: Value)
        ensures
            v@ == Model::Dict(
                if self.hints@.len() > 0 {
                    seq![(Model::Text("hints"@), pairs_value(hint_views(self.hints@)))]
                } else {
                    Seq::empty()
                },
            ),
    {
        let mut e: Vec<(Value, Value)> = Vec::new();
        if self.hints.len() > 0 {
            e.push((text_value("hints"), hints_value(&self.hints)));
        }
        proof {
            lemma_model_entries(e@);
            assert(model_entries(e@) =~= if self.hints@.len() > 0 {
                seq![(Model::Text("hints"@), pairs_value(hint_views(self.hints@)))]
            } else {
                Seq::empty()
            });
        }
        Value::Dict(e)
    }

    /// The refs this record should carry: the targets.
    pub fn refs(&self) -> (r: Vec<Ref>)
        ensures
            r@ == self.targets@,
    {
        copy_refs(self.targets.as_slice())
    }
}

/// A claim that a candidate duplicates a canonical manifest.
#[derive(Debug, Clone, PartialEq, Eq)]
pub struct Similarity {
    /// The candidate record or blob (`refs[0]`).
    pub candidate: Ref,
    /// The canonical manifest (`refs[1]`, a record ref).
    pub canonical: RecordId,
    /// Method, non-empty.
    pub method: String,
    /// Score in basis points, at most 10000.
    pub score: u64,
}

/// The similarity a record holds: candidate, canonical id, method and
/// score.
pub open spec fn similarity_of(r: RecordModel) -> Option<(Ref, Seq<u8>, Seq<char>, u64)> {
    if r.refs.len() == 2 {
        match (ref_id(r.refs[1]), req_nonempty_text(r.body, "method"@, unbounded()), req_u64(r.body, "score"@)) {
            (Some(c), Some(m), Some(s)) => if s <= 10_000 {
                Some((r.refs[0], c, m, s))
            } else {
                None
            },
            _ => None,
        }
    } else {
        None
    }
}

/// Why a record is not a similarity (when it is not): the first check
/// it fails.
pub open spec fn similarity_error(r: RecordModel) -> Error {
    if r.refs.len() != 2 {
        Error::Kind("similarity: refs must have exactly 2 elements")
    } else if ref_id(r.refs[1]) is None {
        Error::Kind("similarity: refs[1] must be a record ref (canonical manifest)")
    } else if req_nonempty_text(r.body, "method"@, unbounded()) is None {
        Error::Kind("similarity: method required")
    } else if req_u64(r.body, "score"@) is None {
        Error::Kind("similarity: score required")
    } else {
        Error::Kind("similarity/score-overflow")
    }
}

impl Similarity {
    /// Parse and validate a `similarity` record (see [`similarity_of`]).
    pub fn parse(record: &Record) -> (res: Result<Similarity, Error>)
        ensures
            match similarity_of(record@) {
                None => res == Err::<Similarity, Error>(similarity_error(record@)),
                Some(m) => res matches Ok(x) && x.candidate == m.0 && x.canonical.0@ == m.1 && x.method@ == m.2
                    && x.score == m.3,
            },
    {
        match refs_exact(record, 2, "similarity: refs must have exactly 2 elements") {
            Ok(()) => {},
            Err(e) => {
                return Err(e);
            },
        }
        let candidate = record.refs()[0];
        let canonical = match ref_record_id(&record.refs()[1], "similarity: refs[1] must be a record ref (canonical manifest)") {
            Ok(x) => x,
            Err(e) => {
                return Err(e);
            },
        };
        let body = record.body();
        let method = match required_nonempty_text(body, "method", usize::MAX, "similarity: method required") {
            Ok(x) => x,
            Err(e) => {
                return Err(e);
            },
        };
        let score = match required_u64(body, "score", "similarity: score required") {
            Ok(x) => x,
            Err(e) => {
                return Err(e);
            },
        };
        if score > 10_000 {
            return Err(Error::Kind("similarity/score-overflow"));
        }
        Ok(Similarity { candidate, canonical, method, score })
    }

    /// Build the body: method and score.
    pub fn to_body(&self) -> (v: Value)
        ensures
            v@ == Model::Dict(
                seq![(Model::Text("method"@), Model::Text(self.method@)), (Model::Text("score"@), Model::Uint(self.score))],
            ),
    {
        let e = vec![(text_value("method"), Value::Text(self.method.clone())), (text_value("score"), Value::Uint(self.score))];
        proof {
            lemma_model_entries(e@);
            assert(model_entries(e@) =~= seq![
                (Model::Text("method"@), Model::Text(self.method@)),
                (Model::Text("score"@), Model::Uint(self.score)),
            ]);
        }
        Value::Dict(e)
    }

    /// The refs this record should carry: the candidate, then the
    /// canonical manifest.
    pub fn refs(&self) -> (r: Vec<Ref>)
        ensures
            r@ == seq![self.candidate, Ref { ref_type: 0, hash: self.canonical.0 }],
    {
        vec![self.candidate, Ref::record(self.canonical)]
    }
}

} // verus!
