//! Claim kinds: `claim.author`, `claim.license`, `claim.transfer`,
//! `claim.dispute`.

use vstd::prelude::*;
use crate::codec::{Value, Model, model_entries};
use crate::error::Error;
use crate::ids::{BlobId, IdentityId, RecordId};
use crate::record::{Record, RecordModel, Ref};
use crate::text::bytes_to_vec;
use crate::kinds::fields::{
    text_value, opt_text, blobs, req_nonempty_text, req_text, text_at, req_bytes32, id_array_at, ref_id, unbounded,
    push_entry, push_if, ids_value, blobs_to_value, required_nonempty_text, required_text, text_field, blob_id_array,
    required_identity_id, ref_record_id, refs_exact, validate_license, license_ok,
};
use crate::kinds::content::single_target;
use crate::kinds::{KIND_CLAIM_AUTHOR, KIND_CLAIM_LICENSE, KIND_CLAIM_TRANSFER, KIND_NOTICE_TAKEDOWN, KIND_NOTICE_COUNTER};

verus! {

/// A claim of authorship of a record.
#[derive(Debug, Clone, PartialEq, Eq)]
pub struct ClaimAuthor {
    /// The claimed record (the one ref).
    pub subject: RecordId,
    /// Free-form statement.
    pub statement: Option<String>,
    /// Evidence blobs.
    pub evidence: Vec<BlobId>,
}

/// The authorship claim a record holds: one record ref, an optional
/// statement, evidence blob ids.
pub open spec fn claim_author_of(r: RecordModel) -> Option<(Seq<u8>, Option<Seq<char>>, Seq<Seq<u8>>)> {
    match (single_target(r), text_at(r.body, "statement"@, unbounded()), id_array_at(r.body, "evidence"@)) {
        (Some(t), Some(s), Some(e)) => Some((t, s, e)),
        _ => None,
    }
}

/// Entries for an optional statement and a list of evidence blobs.
pub open spec fn statement_evidence(s: Option<Seq<char>>, ev: Seq<Seq<u8>>) -> Seq<(Model, Model)> {
    push_if(
        push_if(Seq::empty(), s is Some, (Model::Text("statement"@), Model::Text(s->0))),
        ev.len() > 0,
        (Model::Text("evidence"@), ids_value(ev)),
    )
}

impl ClaimAuthor {
    /// Parse and validate a `claim.author` record (see [`claim_author_of`]).
    pub fn parse(record: &Record) -> (res: Result<ClaimAuthor, Error>)
        ensures
            match claim_author_of(record@) {
                None => res matches Err(e) && e is Kind,
                Some(m) => res matches Ok(x) && x.subject.0@ == m.0 && opt_text(x.statement) == m.1
                    && blobs(x.evidence@) == m.2,
            },
    {
        match refs_exact(record, 1, "claim.author: refs must be exactly one subject ref") {
            Ok(()) => {},
            Err(e) => {
                return Err(e);
            },
        }
        let subject = match ref_record_id(&record.refs()[0], "claim.author: ref must be a record ref") {
            Ok(x) => x,
            Err(e) => {
                return Err(e);
            },
        };
        let body = record.body();
        let statement = match text_field(body, "statement", usize::MAX, "claim.author: statement must be text") {
            Ok(x) => x,
            Err(e) => {
                return Err(e);
            },
        };
        let evidence = match blob_id_array(body, "evidence", "claim.author: evidence must be an array of blob ids") {
            Ok(x) => x,
            Err(e) => {
                return Err(e);
            },
        };
        Ok(ClaimAuthor { subject, statement, evidence })
    }

    /// Build the body: the statement when given, the evidence when any.
    pub fn to_body(&self) -> (v: Value)
        ensures
            v@ == Model::Dict(statement_evidence(opt_text(self.statement), blobs(self.evidence@))),
    {
        let mut e: Vec<(Value, Value)> = Vec::new();
        proof {
            assert(model_entries(e@) =~= Seq::<(Model, Model)>::empty());
        }
        match &self.statement {
            Some(s) => push_entry(&mut e, text_value("statement"), Value::Text(s.clone())),
            None => {},
        }
        if self.evidence.len() > 0 {
            push_entry(&mut e, text_value("evidence"), blobs_to_value(&self.evidence));
        }
        proof {
            assert(model_entries(e@) =~= statement_evidence(opt_text(self.statement), blobs(self.evidence@)));
        }
        Value::Dict(e)
    }

    /// The refs this record should carry: the subject.
    pub fn refs(&self) -> (r: Vec<Ref>)
        ensures
            r@ == seq![Ref { ref_type: 0, hash: self.subject.0 }],
    {
        vec![Ref::record(self.subject)]
    }
}

/// A license grant for a record.
#[derive(Debug, Clone, PartialEq, Eq)]
pub struct ClaimLicense {
    /// The licensed record (the one ref).
    pub subject: RecordId,
    /// License token, 1 to 64 bytes.
    pub license: String,
    /// Additional terms.
    pub terms: Option<String>,
}

/// The license claim a record holds: one record ref, a 1-64 byte license
/// token, optional terms.
pub open spec fn claim_license_of(r: RecordModel) -> Option<(Seq<u8>, Seq<char>, Option<Seq<char>>)> {
    match (single_target(r), req_text(r.body, "license"@, 4096), text_at(r.body, "terms"@, unbounded())) {
        (Some(t), Some(l), Some(x)) => if license_ok(l) {
            Some((t, l, x))
        } else {
            None
        },
        _ => None,
    }
}

impl ClaimLicense {
    /// Parse and validate a `claim.license` record (see
    /// [`claim_license_of`]).
    pub fn parse(record: &Record) -> (res: Result<ClaimLicense, Error>)
        ensures
            match claim_license_of(record@) {
                None => res matches Err(e) && e is Kind,
                Some(m) => res matches Ok(x) && x.subject.0@ == m.0 && x.license@ == m.1 && opt_text(x.terms) == m.2,
            },
    {
        match refs_exact(record, 1, "claim.license: refs must be exactly one subject ref") {
            Ok(()) => {},
            Err(e) => {
                return Err(e);
            },
        }
        let subject = match ref_record_id(&record.refs()[0], "claim.license: ref must be a record ref") {
            Ok(x) => x,
            Err(e) => {
                return Err(e);
            },
        };
        let body = record.body();
        let license = match required_text(body, "license", 4096, "claim.license: license required") {
            Ok(x) => x,
            Err(e) => {
                return Err(e);
            },
        };
        match validate_license(license.as_str()) {
            Ok(()) => {},
            Err(e) => {
                return Err(e);
            },
        }
        let terms = match text_field(body, "terms", usize::MAX, "claim.license: terms must be text") {
            Ok(x) => x,
            Err(e) => {
                return Err(e);
            },
        };
        Ok(ClaimLicense { subject, license, terms })
    }

    /// Build the body: the license, then the terms when given.
    pub fn to_body(&self) -> (v: Value)
        ensures
            v@ == Model::Dict(
                push_if(
                    seq![(Model::Text("license"@), Model::Text(self.license@))],
                    self.terms is Some,
                    (Model::Text("terms"@), Model::Text(self.terms->0@)),
                ),
            ),
    {
        let mut e: Vec<(Value, Value)> = Vec::new();
        proof {
            assert(model_entries(e@) =~= Seq::<(Model, Model)>::empty());
        }
        push_entry(&mut e, text_value("license"), Value::Text(self.license.clone()));
        match &self.terms {
            Some(t) => push_entry(&mut e, text_value("terms"), Value::Text(t.clone())),
            None => {},
        }
        proof {
            assert(model_entries(e@) =~= push_if(
                seq![(Model::Text("license"@), Model::Text(self.license@))],
                self.terms is Some,
                (Model::Text("terms"@), Model::Text(self.terms->0@)),
            ));
        }
        Value::Dict(e)
    }

    /// The refs this record should carry: the subject.
    pub fn refs(&self) -> (r: Vec<Ref>)
        ensures
            r@ == seq![Ref { ref_type: 0, hash: self.subject.0 }],
    {
        vec![Ref::record(self.subject)]
    }
}

/// A transfer of a claim to another identity.
#[derive(Debug, Clone, PartialEq, Eq)]
pub struct ClaimTransfer {
    /// The record whose claim is transferred (the one ref).
    pub subject: RecordId,
    /// The new claimant.
    pub assignee: IdentityId,
    /// Optional note.
    pub note: Option<String>,
}

/// The transfer a record holds: one record ref, a 32-byte assignee, an
/// optional note.
pub open spec fn claim_transfer_of(r: RecordModel) -> Option<(Seq<u8>, Seq<u8>, Option<Seq<char>>)> {
    match (single_target(r), req_bytes32(r.body, "assignee"@), text_at(r.body, "note"@, unbounded())) {
        (Some(t), Some(a), Some(n)) => Some((t, a, n)),
        _ => None,
    }
}

impl ClaimTransfer {
    /// Parse and validate a `claim.transfer` record (see
    /// [`claim_transfer_of`]).
    pub fn parse(record: &Record) -> (res: Result<ClaimTransfer, Error>)
        ensures
            match claim_transfer_of(record@) {
                None => res matches Err(e) && e is Kind,
                Some(m) => res matches Ok(x) && x.subject.0@ == m.0 && x.assignee.0@ == m.1 && opt_text(x.note) == m.2,
            },
    {
        match refs_exact(record, 1, "claim.transfer: refs must be exactly one subject ref") {
            Ok(()) => {},
            Err(e) => {
                return Err(e);
            },
        }
        let subject = match ref_record_id(&record.refs()[0], "claim.transfer: ref must be a record ref") {
            Ok(x) => x,
            Err(e) => {
                return Err(e);
            },
        };
        let body = record.body();
        let assignee = match required_identity_id(body, "assignee", "claim.transfer: assignee required (32 bytes)") {
            Ok(x) => x,
            Err(e) => {
                return Err(e);
            },
        };
        let note = match text_field(body, "note", usize::MAX, "claim.transfer: note must be text") {
            Ok(x) => x,
            Err(e) => {
                return Err(e);
            },
        };
        Ok(ClaimTransfer { subject, assignee, note })
    }

    /// Build the body: the assignee, then the note when given.
    pub fn to_body(&self) -> (v: Value)
        ensures
            v@ == Model::Dict(
                push_if(
                    seq![(Model::Text("assignee"@), Model::Bytes(self.assignee.0@))],
                    self.note is Some,
                    (Model::Text("note"@), Model::Text(self.note->0@)),
                ),
            ),
    {
        let mut e: Vec<(Value, Value)> = Vec::new();
        proof {
            assert(model_entries(e@) =~= Seq::<(Model, Model)>::empty());
        }
        push_entry(&mut e, text_value("assignee"), Value::Bytes(bytes_to_vec(self.assignee.as_bytes())));
        match &self.note {
            Some(n) => push_entry(&mut e, text_value("note"), Value::Text(n.clone())),
            None => {},
        }
        proof {
            assert(model_entries(e@) =~= push_if(
                seq![(Model::Text("assignee"@), Model::Bytes(self.assignee.0@))],
                self.note is Some,
                (Model::Text("note"@), Model::Text(self.note->0@)),
            ));
        }
        Value::Dict(e)
    }

    /// The refs this record should carry: the subject.
    pub fn refs(&self) -> (r: Vec<Ref>)
        ensures
            r@ == seq![Ref { ref_type: 0, hash: self.subject.0 }],
    {
        vec![Ref::record(self.subject)]
    }
}

/// A dispute of a claim or notice.
#[derive(Debug, Clone, PartialEq, Eq)]
pub struct ClaimDispute {
    /// The disputed record (the one ref).
    pub target: RecordId,
    /// Statement, non-empty.
    pub statement: String,
    /// Evidence blobs.
    pub evidence: Vec<BlobId>,
}

/// The dispute a record holds: one record ref, a non-empty statement,
/// evidence blob ids.
pub open spec fn claim_dispute_of(r: RecordModel) -> Option<(Seq<u8>, Seq<char>, Seq<Seq<u8>>)> {
    match (single_target(r), req_nonempty_text(r.body, "statement"@, unbounded()), id_array_at(r.body, "evidence"@)) {
        (Some(t), Some(s), Some(e)) => Some((t, s, e)),
        _ => None,
    }
}

impl ClaimDispute {
    /// Parse and validate a `claim.dispute` record (see
    /// [`claim_dispute_of`]).
    ///
    /// Not checked here (needs the target): the target's kind; see
    /// [`check_dispute_target_kind`].
    pub fn parse(record: &Record) -> (res: Result<ClaimDispute, Error>)
        ensures
            match claim_dispute_of(record@) {
                None => res matches Err(e) && e is Kind,
                Some(m) => res matches Ok(x) && x.target.0@ == m.0 && x.statement@ == m.1 && blobs(x.evidence@) == m.2,
            },
    {
        match refs_exact(record, 1, "claim.dispute: refs must be exactly one target ref") {
            Ok(()) => {},
            Err(e) => {
                return Err(e);
            },
        }
        let target = match ref_record_id(&record.refs()[0], "claim.dispute: ref must be a record ref") {
            Ok(x) => x,
            Err(e) => {
                return Err(e);
            },
        };
        let body = record.body();
        let statement = match required_nonempty_text(body, "statement", usize::MAX, "claim.dispute: statement required") {
            Ok(x) => x,
            Err(e) => {
                return Err(e);
            },
        };
        let evidence = match blob_id_array(body, "evidence", "claim.dispute: evidence must be an array of blob ids") {
            Ok(x) => x,
            Err(e) => {
                return Err(e);
            },
        };
        Ok(ClaimDispute { target, statement, evidence })
    }

    /// Build the body: the statement, then the evidence when any.
    pub fn to_body(&self) -> (v: Value)
        ensures
            v@ == Model::Dict(statement_evidence(Some(self.statement@), blobs(self.evidence@))),
    {
        let mut e: Vec<(Value, Value)> = Vec::new();
        proof {
            assert(model_entries(e@) =~= Seq::<(Model, Model)>::empty());
        }
        push_entry(&mut e, text_value("statement"), Value::Text(self.statement.clone()));
        if self.evidence.len() > 0 {
            push_entry(&mut e, text_value("evidence"), blobs_to_value(&self.evidence));
        }
        proof {
            assert(model_entries(e@) =~= statement_evidence(Some(self.statement@), blobs(self.evidence@)));
        }
        Value::Dict(e)
    }

    /// The refs this record should carry: the target.
    pub fn refs(&self) -> (r: Vec<Ref>)
        ensures
            r@ == seq![Ref { ref_type: 0, hash: self.target.0 }],
    {
        vec![Ref::record(self.target)]
    }
}

/// Whether a dispute may target a record of this kind: a claim
/// (author, license, transfer) or a notice (takedown, counter).
pub open spec fn disputable(kind: u64) -> bool {
    kind == KIND_CLAIM_AUTHOR || kind == KIND_CLAIM_LICENSE || kind == KIND_CLAIM_TRANSFER || kind
        == KIND_NOTICE_TAKEDOWN || kind == KIND_NOTICE_COUNTER
}

/// The cross-record half of dispute validity: the target must be a
/// claim or notice record.
pub fn check_dispute_target_kind(target_kind: u64) -> (res: Result<(), Error>)
    ensures
        res is Ok <==> disputable(target_kind),
        res matches Err(e) ==> e == Error::Kind("claim.dispute: target must be a claim or notice record"),
{
    if target_kind == KIND_CLAIM_AUTHOR || target_kind == KIND_CLAIM_LICENSE || target_kind == KIND_CLAIM_TRANSFER
        || target_kind == KIND_NOTICE_TAKEDOWN || target_kind == KIND_NOTICE_COUNTER {
        Ok(())
    } else {
        Err(Error::Kind("claim.dispute: target must be a claim or notice record"))
    }
}

} // verus!
