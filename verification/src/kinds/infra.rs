//! Infrastructure and privacy kinds: `anchor`, `keygrant`.

use vstd::prelude::*;
use crate::codec::{Value, Model, model_entries, lemma_model_entries};
use crate::error::Error;
use crate::ids::{BlobId, IdentityId, RecordId};
use crate::record::{Record, RecordModel, Ref, array32};
use crate::text::bytes_to_vec;
use crate::kinds::fields::{
    text_value, opt_text, req_bytes32, req_u64, req_nonempty_text, req_bytes, text_at, unbounded, push_entry, push_if,
    required_bytes32, required_u64, required_nonempty_text, required_bytes, required_identity_id, text_field,
    ref_record_id, refs_empty, refs_exact,
};
use crate::kinds::content::single_target;

verus! {

/// Largest proof carried inline; larger proofs go in a blob.
pub const MAX_INLINE_PROOF: usize = 4096;

/// An anchor's proof: inline bytes, or a 32-byte blob reference.
#[derive(Debug, Clone, PartialEq, Eq)]
pub enum AnchorProof {
    /// The proof itself, at most 4096 bytes (and not 32).
    Inline(Vec<u8>),
    /// A blob holding the proof.
    Blob(BlobId),
}

/// The content of an anchor proof.
pub enum AnchorProofModel {
    Inline(Seq<u8>),
    Blob(Seq<u8>),
}

impl View for AnchorProof {
    type V = AnchorProofModel;

    open spec fn view(&self) -> AnchorProofModel {
        match self {
            AnchorProof::Inline(b) => AnchorProofModel::Inline(b@),
            AnchorProof::Blob(id) => AnchorProofModel::Blob(id.0@),
        }
    }
}

/// How raw proof bytes are read: exactly 32 bytes are a blob id; up to
/// 4096 other bytes are inline; more is invalid.
pub open spec fn anchor_proof_of(raw: Seq<u8>) -> Option<AnchorProofModel> {
    if raw.len() == 32 {
        Some(AnchorProofModel::Blob(raw))
    } else if raw.len() <= MAX_INLINE_PROOF {
        Some(AnchorProofModel::Inline(raw))
    } else {
        None
    }
}

/// The bytes an anchor proof is written as.
pub open spec fn anchor_proof_bytes(p: AnchorProofModel) -> Seq<u8> {
    match p {
        AnchorProofModel::Inline(b) => b,
        AnchorProofModel::Blob(b) => b,
    }
}

impl AnchorProof {
    pub fn to_bytes(&self) -> (b: Vec<u8>)
        ensures
            b@ == anchor_proof_bytes(self@),
    {
        match self {
            AnchorProof::Inline(b) => b.clone(),
            AnchorProof::Blob(id) => bytes_to_vec(id.as_bytes()),
        }
    }

    pub fn parse(raw: Vec<u8>) -> (res: Result<AnchorProof, Error>)
        ensures
            match anchor_proof_of(raw@) {
                None => res matches Err(e) && e is Kind,
                Some(m) => res matches Ok(x) && x@ == m,
            },
    {
        if raw.len() == 32 {
            Ok(AnchorProof::Blob(BlobId(array32(raw.as_slice()))))
        } else if raw.len() <= MAX_INLINE_PROOF {
            Ok(AnchorProof::Inline(raw))
        } else {
            Err(Error::Kind("anchor: proof too large; use a blob reference (32 bytes)"))
        }
    }
}

/// A commitment of a batch of records to an outside system.
#[derive(Debug, Clone, PartialEq, Eq)]
pub struct Anchor {
    /// Merkle root of the anchored batch.
    pub root: [u8; 32],
    /// Number of records in the batch.
    pub count: u64,
    /// The anchoring system, non-empty.
    pub system: String,
    /// The anchoring proof.
    pub proof: AnchorProof,
}

/// The content of an anchor.
pub struct AnchorModel {
    pub root: Seq<u8>,
    pub count: u64,
    pub system: Seq<char>,
    pub proof: AnchorProofModel,
}

impl View for Anchor {
    type V = AnchorModel;

    open spec fn view(&self) -> AnchorModel {
        AnchorModel { root: self.root@, count: self.count, system: self.system@, proof: self.proof@ }
    }
}

/// The anchor a record holds: no refs; a 32-byte root, a count, a
/// system and a proof.
pub open spec fn anchor_of(r: RecordModel) -> Option<AnchorModel> {
    let b = r.body;
    if r.refs.len() != 0 {
        None
    } else {
        match (
            req_bytes32(b, "root"@),
            req_u64(b, "count"@),
            req_nonempty_text(b, "system"@, unbounded()),
            req_bytes(b, "proof"@),
        ) {
            (Some(root), Some(count), Some(system), Some(raw)) => match anchor_proof_of(raw) {
                Some(proof) => Some(AnchorModel { root, count, system, proof }),
                None => None,
            },
            _ => None,
        }
    }
}

impl Anchor {
    /// Parse and validate an `anchor` record (see [`anchor_of`]).
    pub fn parse(record: &Record) -> (res: Result<Anchor, Error>)
        ensures
            match anchor_of(record@) {
                None => res matches Err(e) && e is Kind,
                Some(m) => res matches Ok(x) && x@ == m,
            },
    {
        match refs_empty(record, "anchor: refs must be empty") {
            Ok(()) => {},
            Err(e) => {
                return Err(e);
            },
        }
        let body = record.body();
        let root = match required_bytes32(body, "root", "anchor: root required (32 bytes)") {
            Ok(x) => x,
            Err(e) => {
                return Err(e);
            },
        };
        let count = match required_u64(body, "count", "anchor: count required") {
            Ok(x) => x,
            Err(e) => {
                return Err(e);
            },
        };
        let system = match required_nonempty_text(body, "system", usize::MAX, "anchor: system required") {
            Ok(x) => x,
            Err(e) => {
                return Err(e);
            },
        };
        let raw = match required_bytes(body, "proof", "anchor: proof required") {
            Ok(x) => x,
            Err(e) => {
                return Err(e);
            },
        };
        let proof = match AnchorProof::parse(raw) {
            Ok(x) => x,
            Err(e) => {
                return Err(e);
            },
        };
        Ok(Anchor { root, count, system, proof })
    }

    /// Build the body: root, count, system and proof.
    pub fn to_body(&self) -> (v: Value)
        ensures
            v@ == Model::Dict(
                seq![
                    (Model::Text("root"@), Model::Bytes(self.root@)),
                    (Model::Text("count"@), Model::Uint(self.count)),
                    (Model::Text("system"@), Model::Text(self.system@)),
                    (Model::Text("proof"@), Model::Bytes(anchor_proof_bytes(self.proof@))),
                ],
            ),
    {
        let e = vec![
            (text_value("root"), Value::Bytes(bytes_to_vec(&self.root))),
            (text_value("count"), Value::Uint(self.count)),
            (text_value("system"), Value::Text(self.system.clone())),
            (text_value("proof"), Value::Bytes(self.proof.to_bytes())),
        ];
        proof {
            lemma_model_entries(e@);
            assert(model_entries(e@) =~= seq![
                (Model::Text("root"@), Model::Bytes(self.root@)),
                (Model::Text("count"@), Model::Uint(self.count)),
                (Model::Text("system"@), Model::Text(self.system@)),
                (Model::Text("proof"@), Model::Bytes(anchor_proof_bytes(self.proof@))),
            ]);
        }
        Value::Dict(e)
    }
}

/// A content key wrapped for one recipient.
#[derive(Debug, Clone, PartialEq, Eq)]
pub struct Keygrant {
    /// The record whose content key is granted (the one ref).
    pub subject: RecordId,
    /// The recipient identity.
    pub recipient: IdentityId,
    /// Key-wrapping algorithm.
    pub wrap_alg: u64,
    /// The wrapped key.
    pub wrapped_key: Vec<u8>,
    /// Optional note.
    pub note: Option<String>,
}

/// The content of a key grant.
pub struct KeygrantModel {
    pub subject: Seq<u8>,
    pub recipient: Seq<u8>,
    pub wrap_alg: u64,
    pub wrapped_key: Seq<u8>,
    pub note: Option<Seq<char>>,
}

impl View for Keygrant {
    type V = KeygrantModel;

    open spec fn view(&self) -> KeygrantModel {
        KeygrantModel {
            subject: self.subject.0@,
            recipient: self.recipient.0@,
            wrap_alg: self.wrap_alg,
            wrapped_key: self.wrapped_key@,
            note: opt_text(self.note),
        }
    }
}

/// The key grant a record holds: one record ref; a 32-byte recipient,
/// a wrapping algorithm, the wrapped key and an optional note.
pub open spec fn keygrant_of(r: RecordModel) -> Option<KeygrantModel> {
    let b = r.body;
    match (
        single_target(r),
        req_bytes32(b, "recipient"@),
        req_u64(b, "wrap_alg"@),
        req_bytes(b, "wrapped_key"@),
        text_at(b, "note"@, unbounded()),
    ) {
        (Some(s), Some(rc), Some(a), Some(k), Some(n)) => Some(
            KeygrantModel { subject: s, recipient: rc, wrap_alg: a, wrapped_key: k, note: n },
        ),
        _ => None,
    }
}

/// The body a key grant is written as.
pub open spec fn keygrant_value(k: KeygrantModel) -> Model {
    Model::Dict(
        push_if(
            seq![
                (Model::Text("recipient"@), Model::Bytes(k.recipient)),
                (Model::Text("wrap_alg"@), Model::Uint(k.wrap_alg)),
                (Model::Text("wrapped_key"@), Model::Bytes(k.wrapped_key)),
            ],
            k.note is Some,
            (Model::Text("note"@), Model::Text(k.note->0)),
        ),
    )
}

impl Keygrant {
    /// Parse and validate a `keygrant` record (see [`keygrant_of`]).
    pub fn parse(record: &Record) -> (res: Result<Keygrant, Error>)
        ensures
            match keygrant_of(record@) {
                None => res matches Err(e) && e is Kind,
                Some(m) => res matches Ok(x) && x@ == m,
            },
    {
        match refs_exact(record, 1, "keygrant: refs must be exactly one subject ref") {
            Ok(()) => {},
            Err(e) => {
                return Err(e);
            },
        }
        let subject = match ref_record_id(&record.refs()[0], "keygrant: ref must be a record ref") {
            Ok(x) => x,
            Err(e) => {
                return Err(e);
            },
        };
        let body = record.body();
        let recipient = match required_identity_id(body, "recipient", "keygrant: recipient required (32 bytes)") {
            Ok(x) => x,
            Err(e) => {
                return Err(e);
            },
        };
        let wrap_alg = match required_u64(body, "wrap_alg", "keygrant: wrap_alg required") {
            Ok(x) => x,
            Err(e) => {
                return Err(e);
            },
        };
        let wrapped_key = match required_bytes(body, "wrapped_key", "keygrant: wrapped_key required") {
            Ok(x) => x,
            Err(e) => {
                return Err(e);
            },
        };
        let note = match text_field(body, "note", usize::MAX, "keygrant: note must be text") {
            Ok(x) => x,
            Err(e) => {
                return Err(e);
            },
        };
        Ok(Keygrant { subject, recipient, wrap_alg, wrapped_key, note })
    }

    /// Build the body (see [`keygrant_value`]).
    pub fn to_body(&self) -> (v: Value)
        ensures
            v@ == keygrant_value(self@),
    {
        let mut e: Vec<(Value, Value)> = Vec::new();
        proof {
            assert(model_entries(e@) =~= Seq::<(Model, Model)>::empty());
        }
        push_entry(&mut e, text_value("recipient"), Value::Bytes(bytes_to_vec(self.recipient.as_bytes())));
        push_entry(&mut e, text_value("wrap_alg"), Value::Uint(self.wrap_alg));
        push_entry(&mut e, text_value("wrapped_key"), Value::Bytes(self.wrapped_key.clone()));
        match &self.note {
            Some(n) => push_entry(&mut e, text_value("note"), Value::Text(n.clone())),
            None => {},
        }
        proof {
            assert(model_entries(e@) =~= keygrant_value(self@)->Dict_0);
        }
        Value::Dict(e)
    }

    /// The refs this record should carry: the subject.
    pub fn refs(&self) -> (r: Vec<Ref>)
        ensures
            r@ == seq![Ref { ref_type: 0, hash: self.subject.0 }],
    {
        vec![Ref::record(self.subject)]
    }
}

} // verus!
