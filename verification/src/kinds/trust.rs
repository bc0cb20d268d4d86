//! Trust and economics kinds: `endorse.gateway`, `receipt`, `attest`.

use vstd::prelude::*;
use vstd::utf8::encode_utf8;
use crate::codec::{Value, Model, model_entries};
use crate::access::spec_map_get;
use crate::error::Error;
use crate::ids::{IdentityId, RecordId};
use crate::record::{Record, RecordModel, Ref};
use crate::text::bytes_to_vec;
use crate::kinds::fields::{
    text_value, opt_text, req_nonempty_text, text_at, req_u64, req_bytes32, unbounded, push_entry, push_if,
    required_nonempty_text, text_field, required_u64, required_identity_id, ref_record_id, refs_empty, refs_exact,
};
use crate::kinds::content::single_target;

verus! {

/// The bytes of `https://`.
pub open spec fn https_prefix() -> Seq<u8> {
    seq![104u8, 116, 116, 112, 115, 58, 47, 47]
}

/// Whether a URL is an https origin: it starts with `https://` and has
/// something after it.
pub open spec fn is_https_url(url: Seq<char>) -> bool {
    let b = encode_utf8(url);
    b.len() > 8 && b.subrange(0, 8) == https_prefix()
}

fn is_https_origin(url: &str) -> (r: bool)
    ensures
        r == is_https_url(url@),
{
    let b = url.as_bytes();
    let p: [u8; 8] = [104, 116, 116, 112, 115, 58, 47, 47];
    proof {
        assert(p@ =~= https_prefix());
    }
    if b.len() <= 8 {
        return false;
    }
    let mut i: usize = 0;
    while i < 8
        invariant
            i <= 8,
            b@.len() > 8,
            b@ == encode_utf8(url@),
            p@ == https_prefix(),
            forall|k: int| 0 <= k < i ==> b@[k] == p@[k],
        decreases 8 - i,
    {
        if b[i] != p[i] {
            assert(b@.subrange(0, 8)[i as int] != https_prefix()[i as int]);
            return false;
        }
        i = i + 1;
    }
    assert(b@.subrange(0, 8) =~= https_prefix());
    true
}

/// An endorsement of an https gateway.
#[derive(Debug, Clone, PartialEq, Eq)]
pub struct EndorseGateway {
    /// The gateway's https origin.
    pub url: String,
    /// Optional note.
    pub note: Option<String>,
}

/// The endorsement a record holds: no refs, an https origin, an
/// optional note.
pub open spec fn endorse_gateway_of(r: RecordModel) -> Option<(Seq<char>, Option<Seq<char>>)> {
    if r.refs.len() != 0 {
        None
    } else {
        match (req_nonempty_text(r.body, "url"@, unbounded()), text_at(r.body, "note"@, unbounded())) {
            (Some(u), Some(n)) => if is_https_url(u) {
                Some((u, n))
            } else {
                None
            },
            _ => None,
        }
    }
}

impl EndorseGateway {
    /// Parse and validate an `endorse.gateway` record (see
    /// [`endorse_gateway_of`]).
    pub fn parse(record: &Record) -> (res: Result<EndorseGateway, Error>)
        ensures
            match endorse_gateway_of(record@) {
                None => res matches Err(e) && e is Kind,
                Some(m) => res matches Ok(x) && x.url@ == m.0 && opt_text(x.note) == m.1,
            },
    {
        match refs_empty(record, "endorse.gateway: refs must be empty") {
            Ok(()) => {},
            Err(e) => {
                return Err(e);
            },
        }
        let body = record.body();
        let url = match required_nonempty_text(body, "url", usize::MAX, "endorse.gateway: url required") {
            Ok(x) => x,
            Err(e) => {
                return Err(e);
            },
        };
        if !is_https_origin(url.as_str()) {
            return Err(Error::Kind("endorse.gateway: url must be an https origin"));
        }
        let note = match text_field(body, "note", usize::MAX, "endorse.gateway: note must be text") {
            Ok(x) => x,
            Err(e) => {
                return Err(e);
            },
        };
        Ok(EndorseGateway { url, note })
    }

    /// Build the body: the url, then the note when given.
    pub fn to_body(&self) -> (v: Value)
        ensures
            v@ == Model::Dict(
                push_if(
                    seq![(Model::Text("url"@), Model::Text(self.url@))],
                    self.note is Some,
                    (Model::Text("note"@), Model::Text(self.note->0@)),
                ),
            ),
    {
        let mut e: Vec<(Value, Value)> = Vec::new();
        proof {
            assert(model_entries(e@) =~= Seq::<(Model, Model)>::empty());
        }
        push_entry(&mut e, text_value("url"), Value::Text(self.url.clone()));
        match &self.note {
            Some(n) => push_entry(&mut e, text_value("note"), Value::Text(n.clone())),
            None => {},
        }
        proof {
            assert(model_entries(e@) =~= push_if(
                seq![(Model::Text("url"@), Model::Text(self.url@))],
                self.note is Some,
                (Model::Text("note"@), Model::Text(self.note->0@)),
            ));
        }
        Value::Dict(e)
    }
}

/// A payment receipt.
#[derive(Debug, Clone, PartialEq, Eq)]
pub struct Receipt {
    /// The paid-for record (the one ref).
    pub subject: RecordId,
    /// Amount, positive.
    pub amount: u64,
    /// Currency, non-empty.
    pub currency: String,
    /// Payment rail.
    pub rail: u64,
    /// The payee.
    pub payee: IdentityId,
    /// Proof of payment.
    pub proof: Option<String>,
    /// Message.
    pub message: Option<String>,
}

/// The content of a receipt.
pub struct ReceiptModel {
    pub subject: Seq<u8>,
    pub amount: u64,
    pub currency: Seq<char>,
    pub rail: u64,
    pub payee: Seq<u8>,
    pub proof: Option<Seq<char>>,
    pub message: Option<Seq<char>>,
}

impl View for Receipt {
    type V = ReceiptModel;

    open spec fn view(&self) -> ReceiptModel {
        ReceiptModel {
            subject: self.subject.0@,
            amount: self.amount,
            currency: self.currency@,
            rail: self.rail,
            payee: self.payee.0@,
            proof: opt_text(self.proof),
            message: opt_text(self.message),
        }
    }
}

/// The receipt a record holds: one record ref; a positive amount, a
/// currency, a rail, a 32-byte payee, optional proof and message.
pub open spec fn receipt_of(r: RecordModel) -> Option<ReceiptModel> {
    let b = r.body;
    match (
        single_target(r),
        req_u64(b, "amount"@),
        req_nonempty_text(b, "currency"@, unbounded()),
        req_u64(b, "rail"@),
        req_bytes32(b, "payee"@),
        text_at(b, "proof"@, unbounded()),
        text_at(b, "message"@, unbounded()),
    ) {
        (Some(s), Some(a), Some(c), Some(rl), Some(p), Some(pf), Some(m)) => if a > 0 {
            Some(ReceiptModel { subject: s, amount: a, currency: c, rail: rl, payee: p, proof: pf, message: m })
        } else {
            None
        },
        _ => None,
    }
}

/// The body a receipt is written as.
pub open spec fn receipt_value(x: ReceiptModel) -> Model {
    let e0 = seq![
        (Model::Text("amount"@), Model::Uint(x.amount)),
        (Model::Text("currency"@), Model::Text(x.currency)),
        (Model::Text("rail"@), Model::Uint(x.rail)),
        (Model::Text("payee"@), Model::Bytes(x.payee)),
    ];
    let e1 = push_if(e0, x.proof is Some, (Model::Text("proof"@), Model::Text(x.proof->0)));
    Model::Dict(push_if(e1, x.message is Some, (Model::Text("message"@), Model::Text(x.message->0))))
}

impl Receipt {
    /// Parse and validate a `receipt` record (see [`receipt_of`]).
    pub fn parse(record: &Record) -> (res: Result<Receipt, Error>)
        ensures
            match receipt_of(record@) {
                None => res matches Err(e) && e is Kind,
                Some(m) => res matches Ok(x) && x@ == m,
            },
    {
        match refs_exact(record, 1, "receipt: refs must be exactly one subject ref") {
            Ok(()) => {},
            Err(e) => {
                return Err(e);
            },
        }
        let subject = match ref_record_id(&record.refs()[0], "receipt: ref must be a record ref") {
            Ok(x) => x,
            Err(e) => {
                return Err(e);
            },
        };
        let body = record.body();
        let amount = match required_u64(body, "amount", "receipt: amount required") {
            Ok(x) => x,
            Err(e) => {
                return Err(e);
            },
        };
        if amount == 0 {
            return Err(Error::Kind("receipt: amount must be > 0"));
        }
        let currency = match required_nonempty_text(body, "currency", usize::MAX, "receipt: currency required") {
            Ok(x) => x,
            Err(e) => {
                return Err(e);
            },
        };
        let rail = match required_u64(body, "rail", "receipt: rail required") {
            Ok(x) => x,
            Err(e) => {
                return Err(e);
            },
        };
        let payee = match required_identity_id(body, "payee", "receipt: payee required (32 bytes)") {
            Ok(x) => x,
            Err(e) => {
                return Err(e);
            },
        };
        let proof = match text_field(body, "proof", usize::MAX, "receipt: proof must be text") {
            Ok(x) => x,
            Err(e) => {
                return Err(e);
            },
        };
        let message = match text_field(body, "message", usize::MAX, "receipt: message must be text") {
            Ok(x) => x,
            Err(e) => {
                return Err(e);
            },
        };
        Ok(Receipt { subject, amount, currency, rail, payee, proof, message })
    }

    /// Build the body (see [`receipt_value`]).
    pub fn to_body(&self) -> (v: Value)
        ensures
            v@ == receipt_value(self@),
    {
        let mut e: Vec<(Value, Value)> = Vec::new();
        proof {
            assert(model_entries(e@) =~= Seq::<(Model, Model)>::empty());
        }
        push_entry(&mut e, text_value("amount"), Value::Uint(self.amount));
        push_entry(&mut e, text_value("currency"), Value::Text(self.currency.clone()));
        push_entry(&mut e, text_value("rail"), Value::Uint(self.rail));
        push_entry(&mut e, text_value("payee"), Value::Bytes(bytes_to_vec(self.payee.as_bytes())));
        match &self.proof {
            Some(p) => push_entry(&mut e, text_value("proof"), Value::Text(p.clone())),
            None => {},
        }
        match &self.message {
            Some(m) => push_entry(&mut e, text_value("message"), Value::Text(m.clone())),
            None => {},
        }
        proof {
            assert(model_entries(e@) =~= receipt_value(self@)->Dict_0);
        }
        Value::Dict(e)
    }

    /// The refs this record should carry: the subject.
    pub fn refs(&self) -> (r: Vec<Ref>)
        ensures
            r@ == seq![Ref { ref_type: 0, hash: self.subject.0 }],
    {
        vec![Ref::record(self.subject)]
    }
}

/// An attestation about a record.
#[derive(Debug, Clone, PartialEq, Eq)]
pub struct Attest {
    /// The attested record (the one ref).
    pub subject: RecordId,
    /// Statement, non-empty.
    pub statement: String,
    /// Structured data, a map.
    pub data: Option<Value>,
}

/// The optional data map of an attestation.
pub open spec fn attest_data(b: Model) -> Option<Option<Model>> {
    match spec_map_get(b, Model::Text("data"@)) {
        None => Some(None),
        Some(m) => if m is Dict {
            Some(Some(m))
        } else {
            None
        },
    }
}

/// The data of an optional value.
pub open spec fn opt_value(o: Option<Value>) -> Option<Model> {
    match o {
        Some(v) => Some(v@),
        None => None,
    }
}

/// The attestation a record holds: one record ref, a statement, an
/// optional data map.
pub open spec fn attest_of(r: RecordModel) -> Option<(Seq<u8>, Seq<char>, Option<Model>)> {
    match (single_target(r), req_nonempty_text(r.body, "statement"@, unbounded()), attest_data(r.body)) {
        (Some(s), Some(st), Some(d)) => Some((s, st, d)),
        _ => None,
    }
}

impl Attest {
    /// Parse and validate an `attest` record (see [`attest_of`]).
    pub fn parse(record: &Record) -> (res: Result<Attest, Error>)
        ensures
            match attest_of(record@) {
                None => res matches Err(e) && e is Kind,
                Some(m) => res matches Ok(x) && x.subject.0@ == m.0 && x.statement@ == m.1 && opt_value(x.data) == m.2,
            },
    {
        match refs_exact(record, 1, "attest: refs must be exactly one subject ref") {
            Ok(()) => {},
            Err(e) => {
                return Err(e);
            },
        }
        let subject = match ref_record_id(&record.refs()[0], "attest: ref must be a record ref") {
            Ok(x) => x,
            Err(e) => {
                return Err(e);
            },
        };
        let body = record.body();
        let statement = match required_nonempty_text(body, "statement", usize::MAX, "attest: statement required") {
            Ok(x) => x,
            Err(e) => {
                return Err(e);
            },
        };
        let data = match body.map_get("data") {
            None => None,
            Some(v) => {
                if v.as_map().is_none() {
                    return Err(Error::Kind("attest: data must be a map"));
                }
                Some(v.clone())
            },
        };
        Ok(Attest { subject, statement, data })
    }

    /// Build the body: the statement, then the data when given.
    pub fn to_body(&self) -> (v: Value)
        ensures
            v@ == Model::Dict(
                push_if(
                    seq![(Model::Text("statement"@), Model::Text(self.statement@))],
                    self.data is Some,
                    (Model::Text("data"@), opt_value(self.data)->0),
                ),
            ),
    {
        let mut e: Vec<(Value, Value)> = Vec::new();
        proof {
            assert(model_entries(e@) =~= Seq::<(Model, Model)>::empty());
        }
        push_entry(&mut e, text_value("statement"), Value::Text(self.statement.clone()));
        match &self.data {
            Some(d) => push_entry(&mut e, text_value("data"), d.clone()),
            None => {},
        }
        proof {
            assert(model_entries(e@) =~= push_if(
                seq![(Model::Text("statement"@), Model::Text(self.statement@))],
                self.data is Some,
                (Model::Text("data"@), opt_value(self.data)->0),
            ));
        }
        Value::Dict(e)
    }

    /// The refs this record should carry: the subject.
    pub fn refs(&self) -> (r: Vec<Ref>)
        ensures
            r@ == seq![Ref { ref_type: 0, hash: self.subject.0 }],
    {
        vec![Ref::record(self.subject)]
    }
}

} // verus!
