//! Compliance kinds: `notice.takedown`, `notice.counter`,
//! `feed.takedown`.

use vstd::prelude::*;
use crate::codec::{Value, Model, model_list, lemma_model_list, model_entries, lemma_model_entries};
use crate::access::spec_map_get;
use crate::error::Error;
use crate::ids::RecordId;
use crate::record::{Record, RecordModel, Ref, array32};
use crate::text::bytes_to_vec;
use crate::kinds::fields::{
    own, text_value, opt_text, req_nonempty_text, text_at, req_u64, req_array, ref_id, unbounded, push_entry, push_if,
    is_id32, items_of, required_nonempty_text, text_field, required_u64, required_array, ref_record_id, refs_empty,
    refs_exact, refs_min,
};
use crate::kinds::content::{single_target, opt_record};

verus! {

/// The party sending a notice.
#[derive(Debug, Clone, PartialEq, Eq)]
pub struct Claimant {
    /// Name, non-empty.
    pub name: String,
    /// Contact, non-empty.
    pub contact: String,
    /// Whom the claimant acts for.
    pub on_behalf_of: Option<String>,
}

/// The content of a claimant.
pub struct ClaimantModel {
    pub name: Seq<char>,
    pub contact: Seq<char>,
    pub on_behalf_of: Option<Seq<char>>,
}

impl View for Claimant {
    type V = ClaimantModel;

    open spec fn view(&self) -> ClaimantModel {
        ClaimantModel { name: self.name@, contact: self.contact@, on_behalf_of: opt_text(self.on_behalf_of) }
    }
}

/// A claimant read from a map.
pub open spec fn claimant_of(m: Model) -> Option<ClaimantModel> {
    match (
        req_nonempty_text(m, "name"@, unbounded()),
        req_nonempty_text(m, "contact"@, unbounded()),
        text_at(m, "on_behalf_of"@, unbounded()),
    ) {
        (Some(n), Some(c), Some(o)) => Some(ClaimantModel { name: n, contact: c, on_behalf_of: o }),
        _ => None,
    }
}

/// The map a claimant is written as.
pub open spec fn claimant_value(c: ClaimantModel) -> Model {
    Model::Dict(
        push_if(
            seq![(Model::Text("name"@), Model::Text(c.name)), (Model::Text("contact"@), Model::Text(c.contact))],
            c.on_behalf_of is Some,
            (Model::Text("on_behalf_of"@), Model::Text(c.on_behalf_of->0)),
        ),
    )
}

/// The claimant under the `claimant` key of a notice body.
pub open spec fn claimant_at(b: Model) -> Option<ClaimantModel> {
    match spec_map_get(b, Model::Text("claimant"@)) {
        Some(m) => claimant_of(m),
        None => None,
    }
}

impl Claimant {
    pub fn to_value(&self) -> (v: Value)
        ensures
            v@ == claimant_value(self@),
    {
        let mut e: Vec<(Value, Value)> = Vec::new();
        proof {
            assert(model_entries(e@) =~= Seq::<(Model, Model)>::empty());
        }
        push_entry(&mut e, text_value("name"), Value::Text(self.name.clone()));
        push_entry(&mut e, text_value("contact"), Value::Text(self.contact.clone()));
        match &self.on_behalf_of {
            Some(o) => push_entry(&mut e, text_value("on_behalf_of"), Value::Text(o.clone())),
            None => {},
        }
        proof {
            assert(model_entries(e@) =~= claimant_value(self@)->Dict_0);
        }
        Value::Dict(e)
    }

    pub fn parse(v: &Value) -> (res: Result<Claimant, Error>)
        ensures
            match claimant_of(v@) {
                None => res matches Err(e) && e is Kind,
                Some(m) => res matches Ok(x) && x@ == m,
            },
    {
        let name = match required_nonempty_text(v, "name", usize::MAX, "claimant: name required") {
            Ok(x) => x,
            Err(e) => {
                return Err(e);
            },
        };
        let contact = match required_nonempty_text(v, "contact", usize::MAX, "claimant: contact required") {
            Ok(x) => x,
            Err(e) => {
                return Err(e);
            },
        };
        let on_behalf_of = match text_field(v, "on_behalf_of", usize::MAX, "claimant: on_behalf_of must be text") {
            Ok(x) => x,
            Err(e) => {
                return Err(e);
            },
        };
        Ok(Claimant { name, contact, on_behalf_of })
    }
}

/// Reads the claimant of a notice body.
fn claimant_field(body: &Value, missing: &'static str) -> (res: Result<Claimant, Error>)
    ensures
        match claimant_at(body@) {
            None => res matches Err(e) && e is Kind,
            Some(m) => res matches Ok(x) && x@ == m,
        },
{
    match body.map_get("claimant") {
        Some(v) => Claimant::parse(v),
        None => Err(Error::Kind(missing)),
    }
}

/// Copies a list of refs.
fn copy_refs(v: &[Ref]) -> (r: Vec<Ref>)
    ensures
        r@ == v@,
{
    let mut out: Vec<Ref> = Vec::new();
    let mut i: usize = 0;
    while i < v.len()
        invariant
            i <= v.len(),
            out@ == v@.subrange(0, i as int),
        decreases v.len() - i,
    {
        out.push(v[i]);
        i = i + 1;
    }
    assert(out@ =~= v@);
    out
}

/// A takedown notice against one or more records or blobs.
#[derive(Debug, Clone, PartialEq, Eq)]
pub struct NoticeTakedown {
    /// The noticed records or blobs (the refs, at least one).
    pub subjects: Vec<Ref>,
    /// Legal regime, non-empty.
    pub regime: String,
    /// Who sends the notice.
    pub claimant: Claimant,
    /// Statement, non-empty.
    pub statement: String,
    /// The work concerned, non-empty.
    pub work: String,
    /// Signature name, non-empty.
    pub signature_name: String,
}

/// The content of a takedown notice.
pub struct NoticeTakedownModel {
    pub subjects: Seq<Ref>,
    pub regime: Seq<char>,
    pub claimant: ClaimantModel,
    pub statement: Seq<char>,
    pub work: Seq<char>,
    pub signature_name: Seq<char>,
}

impl View for NoticeTakedown {
    type V = NoticeTakedownModel;

    open spec fn view(&self) -> NoticeTakedownModel {
        NoticeTakedownModel {
            subjects: self.subjects@,
            regime: self.regime@,
            claimant: self.claimant@,
            statement: self.statement@,
            work: self.work@,
            signature_name: self.signature_name@,
        }
    }
}

/// The takedown notice a record holds: at least one ref; a regime, a
/// claimant, a statement, the work and a signature name.
pub open spec fn notice_takedown_of(r: RecordModel) -> Option<NoticeTakedownModel> {
    let b = r.body;
    if r.refs.len() < 1 {
        None
    } else {
        match (
            req_nonempty_text(b, "regime"@, unbounded()),
            claimant_at(b),
            req_nonempty_text(b, "statement"@, unbounded()),
            req_nonempty_text(b, "work"@, unbounded()),
            req_nonempty_text(b, "signature_name"@, unbounded()),
        ) {
            (Some(rg), Some(c), Some(s), Some(w), Some(sn)) => Some(
                NoticeTakedownModel { subjects: r.refs, regime: rg, claimant: c, statement: s, work: w, signature_name: sn },
            ),
            _ => None,
        }
    }
}

impl NoticeTakedown {
    /// Parse and validate a `notice.takedown` record (see
    /// [`notice_takedown_of`]).
    pub fn parse(record: &Record) -> (res: Result<NoticeTakedown, Error>)
        ensures
            match notice_takedown_of(record@) {
                None => res matches Err(e) && e is Kind,
                Some(m) => res matches Ok(x) && x@ == m,
            },
    {
        match refs_min(record, 1, "notice.takedown: at least one subject ref required") {
            Ok(()) => {},
            Err(e) => {
                return Err(e);
            },
        }
        let subjects = copy_refs(record.refs());
        let body = record.body();
        let regime = match required_nonempty_text(body, "regime", usize::MAX, "notice.takedown: regime required") {
            Ok(x) => x,
            Err(e) => {
                return Err(e);
            },
        };
        let claimant = match claimant_field(body, "notice.takedown: claimant required") {
            Ok(x) => x,
            Err(e) => {
                return Err(e);
            },
        };
        let statement = match required_nonempty_text(body, "statement", usize::MAX, "notice.takedown: statement required") {
            Ok(x) => x,
            Err(e) => {
                return Err(e);
            },
        };
        let work = match required_nonempty_text(body, "work", usize::MAX, "notice.takedown: work required") {
            Ok(x) => x,
            Err(e) => {
                return Err(e);
            },
        };
        let signature_name = match required_nonempty_text(
            body,
            "signature_name",
            usize::MAX,
            "notice.takedown: signature_name required",
        ) {
            Ok(x) => x,
            Err(e) => {
                return Err(e);
            },
        };
        Ok(NoticeTakedown { subjects, regime, claimant, statement, work, signature_name })
    }

    /// Build the body: regime, claimant, statement, work and signature
    /// name.
    pub fn to_body(&self) -> (v: Value)
        ensures
            v@ == Model::Dict(
                seq![
                    (Model::Text("regime"@), Model::Text(self.regime@)),
                    (Model::Text("claimant"@), claimant_value(self.claimant@)),
                    (Model::Text("statement"@), Model::Text(self.statement@)),
                    (Model::Text("work"@), Model::Text(self.work@)),
                    (Model::Text("signature_name"@), Model::Text(self.signature_name@)),
                ],
            ),
    {
        let e = vec![
            (text_value("regime"), Value::Text(self.regime.clone())),
            (text_value("claimant"), self.claimant.to_value()),
            (text_value("statement"), Value::Text(self.statement.clone())),
            (text_value("work"), Value::Text(self.work.clone())),
            (text_value("signature_name"), Value::Text(self.signature_name.clone())),
        ];
        proof {
            lemma_model_entries(e@);
            assert(model_entries(e@) =~= seq![
                (Model::Text("regime"@), Model::Text(self.regime@)),
                (Model::Text("claimant"@), claimant_value(self.claimant@)),
                (Model::Text("statement"@), Model::Text(self.statement@)),
                (Model::Text("work"@), Model::Text(self.work@)),
                (Model::Text("signature_name"@), Model::Text(self.signature_name@)),
            ]);
        }
        Value::Dict(e)
    }

    /// The refs this record should carry: the subjects.
    pub fn refs(&self) -> (r: Vec<Ref>)
        ensures
            r@ == self.subjects@,
    {
        copy_refs(self.subjects.as_slice())
    }
}

/// A counter-notice against a takedown.
#[derive(Debug, Clone, PartialEq, Eq)]
pub struct NoticeCounter {
    /// The countered notice (the one ref).
    pub target: RecordId,
    /// Legal regime, non-empty.
    pub regime: String,
    /// Who sends the counter-notice.
    pub claimant: Claimant,
    /// Statement, non-empty.
    pub statement: String,
    /// The work concerned.
    pub work: Option<String>,
    /// Signature name, non-empty.
    pub signature_name: String,
}

/// The content of a counter-notice.
pub struct NoticeCounterModel {
    pub target: Seq<u8>,
    pub regime: Seq<char>,
    pub claimant: ClaimantModel,
    pub statement: Seq<char>,
    pub work: Option<Seq<char>>,
    pub signature_name: Seq<char>,
}

impl View for NoticeCounter {
    type V = NoticeCounterModel;

    open spec fn view(&self) -> NoticeCounterModel {
        NoticeCounterModel {
            target: self.target.0@,
            regime: self.regime@,
            claimant: self.claimant@,
            statement: self.statement@,
            work: opt_text(self.work),
            signature_name: self.signature_name@,
        }
    }
}

/// The counter-notice a record holds: one record ref; a regime, a
/// claimant, a statement, an optional work and a signature name.
pub open spec fn notice_counter_of(r: RecordModel) -> Option<NoticeCounterModel> {
    let b = r.body;
    match (
        single_target(r),
        req_nonempty_text(b, "regime"@, unbounded()),
        claimant_at(b),
        req_nonempty_text(b, "statement"@, unbounded()),
        text_at(b, "work"@, unbounded()),
        req_nonempty_text(b, "signature_name"@, unbounded()),
    ) {
        (Some(t), Some(rg), Some(c), Some(s), Some(w), Some(sn)) => Some(
            NoticeCounterModel { target: t, regime: rg, claimant: c, statement: s, work: w, signature_name: sn },
        ),
        _ => None,
    }
}

impl NoticeCounter {
    /// Parse and validate a `notice.counter` record (see
    /// [`notice_counter_of`]).
    pub fn parse(record: &Record) -> (res: Result<NoticeCounter, Error>)
        ensures
            match notice_counter_of(record@) {
                None => res matches Err(e) && e is Kind,
                Some(m) => res matches Ok(x) && x@ == m,
            },
    {
        match refs_exact(record, 1, "notice.counter: refs must be exactly one target ref") {
            Ok(()) => {},
            Err(e) => {
                return Err(e);
            },
        }
        let target = match ref_record_id(&record.refs()[0], "notice.counter: ref must be a record ref") {
            Ok(x) => x,
            Err(e) => {
                return Err(e);
            },
        };
        let body = record.body();
        let regime = match required_nonempty_text(body, "regime", usize::MAX, "notice.counter: regime required") {
            Ok(x) => x,
            Err(e) => {
                return Err(e);
            },
        };
        let claimant = match claimant_field(body, "notice.counter: claimant required") {
            Ok(x) => x,
            Err(e) => {
                return Err(e);
            },
        };
        let statement = match required_nonempty_text(body, "statement", usize::MAX, "notice.counter: statement required") {
            Ok(x) => x,
            Err(e) => {
                return Err(e);
            },
        };
        let work = match text_field(body, "work", usize::MAX, "notice.counter: work must be text") {
            Ok(x) => x,
            Err(e) => {
                return Err(e);
            },
        };
        let signature_name = match required_nonempty_text(
            body,
            "signature_name",
            usize::MAX,
            "notice.counter: signature_name required",
        ) {
            Ok(x) => x,
            Err(e) => {
                return Err(e);
            },
        };
        Ok(NoticeCounter { target, regime, claimant, statement, work, signature_name })
    }

    /// Build the body: regime, claimant, statement and signature name,
    /// then the work when given.
    pub fn to_body(&self) -> (v: Value)
        ensures
            v@ == Model::Dict(
                push_if(
                    seq![
                        (Model::Text("regime"@), Model::Text(self.regime@)),
                        (Model::Text("claimant"@), claimant_value(self.claimant@)),
                        (Model::Text("statement"@), Model::Text(self.statement@)),
                        (Model::Text("signature_name"@), Model::Text(self.signature_name@)),
                    ],
                    self.work is Some,
                    (Model::Text("work"@), Model::Text(self.work->0@)),
                ),
            ),
    {
        let mut e: Vec<(Value, Value)> = Vec::new();
        proof {
            assert(model_entries(e@) =~= Seq::<(Model, Model)>::empty());
        }
        push_entry(&mut e, text_value("regime"), Value::Text(self.regime.clone()));
        push_entry(&mut e, text_value("claimant"), self.claimant.to_value());
        push_entry(&mut e, text_value("statement"), Value::Text(self.statement.clone()));
        push_entry(&mut e, text_value("signature_name"), Value::Text(self.signature_name.clone()));
        match &self.work {
            Some(w) => push_entry(&mut e, text_value("work"), Value::Text(w.clone())),
            None => {},
        }
        proof {
            assert(model_entries(e@) =~= push_if(
                seq![
                    (Model::Text("regime"@), Model::Text(self.regime@)),
                    (Model::Text("claimant"@), claimant_value(self.claimant@)),
                    (Model::Text("statement"@), Model::Text(self.statement@)),
                    (Model::Text("signature_name"@), Model::Text(self.signature_name@)),
                ],
                self.work is Some,
                (Model::Text("work"@), Model::Text(self.work->0@)),
            ));
        }
        Value::Dict(e)
    }

    /// The refs this record should carry: the target.
    pub fn refs(&self) -> (r: Vec<Ref>)
        ensures
            r@ == seq![Ref { ref_type: 0, hash: self.target.0 }],
    {
        vec![Ref::record(self.target)]
    }
}

/// An entry added to a takedown feed:
/// `[ref_type, hash, reason, notice?]`.
#[derive(Debug, Clone, PartialEq, Eq)]
pub struct FeedEntry {
    /// 0 = record, 1 = blob.
    pub ref_type: u64,
    /// The taken-down record id or blob id.
    pub hash: [u8; 32],
    /// Reason.
    pub reason: String,
    /// The notice that prompted the entry.
    pub notice: Option<RecordId>,
}

/// The content of a feed entry.
pub struct FeedEntryModel {
    pub ref_type: u64,
    pub hash: Seq<u8>,
    pub reason: Seq<char>,
    pub notice: Option<Seq<u8>>,
}

impl View for FeedEntry {
    type V = FeedEntryModel;

    open spec fn view(&self) -> FeedEntryModel {
        FeedEntryModel { ref_type: self.ref_type, hash: self.hash@, reason: self.reason@, notice: opt_record(self.notice) }
    }
}

/// The optional notice of a feed entry: absent or null, or a 32-byte id.
pub open spec fn entry_notice(items: Seq<Model>) -> Option<Option<Seq<u8>>> {
    if items.len() < 4 || items[3] is Null {
        Some(None)
    } else if is_id32(items[3]) {
        Some(Some(items[3]->Bytes_0))
    } else {
        None
    }
}

/// A feed entry read from an array.
pub open spec fn feed_entry_of(m: Model) -> Option<FeedEntryModel> {
    match m {
        Model::Array(items) => if 3 <= items.len() <= 4 && items[0] is Uint && items[0]->Uint_0 <= 1 && is_id32(items[1])
            && items[2] is Text && entry_notice(items) is Some {
            Some(
                FeedEntryModel {
                    ref_type: items[0]->Uint_0,
                    hash: items[1]->Bytes_0,
                    reason: items[2]->Text_0,
                    notice: entry_notice(items)->0,
                },
            )
        } else {
            None
        },
        _ => None,
    }
}

/// Why an array is not a feed entry (when it is not): the first check
/// it fails.
pub open spec fn feed_entry_error(m: Model) -> Error {
    match m {
        Model::Array(items) => if !(3 <= items.len() <= 4) {
            Error::Kind("feed.takedown: add entry must be [ref_type, hash, reason, notice?]")
        } else if !(items[0] is Uint) {
            Error::Kind("feed.takedown: entry ref_type must be a uint")
        } else if items[0]->Uint_0 > 1 {
            Error::Kind("feed.takedown: entry ref_type must be 0 or 1")
        } else if !(items[1] is Bytes) {
            Error::Kind("feed.takedown: entry hash must be bytes")
        } else if items[1]->Bytes_0.len() != 32 {
            Error::Kind("feed.takedown: entry hash must be 32 bytes")
        } else if !(items[2] is Text) {
            Error::Kind("feed.takedown: entry reason must be text")
        } else if items[3] is Bytes {
            Error::Kind("feed.takedown: entry notice must be 32 bytes")
        } else {
            Error::Kind("feed.takedown: entry notice must be bytes")
        },
        _ => Error::Kind("feed.takedown: add entry must be an array"),
    }
}

/// [`feed_entry_of`] as a function value.
pub open spec fn feed_entry_fn() -> spec_fn(Model) -> Option<FeedEntryModel> {
    |m: Model| feed_entry_of(m)
}

/// The array a feed entry is written as.
pub open spec fn feed_entry_value(e: FeedEntryModel) -> Model {
    Model::Array(
        seq![Model::Uint(e.ref_type), Model::Bytes(e.hash), Model::Text(e.reason)] + match e.notice {
            Some(n) => seq![Model::Bytes(n)],
            None => Seq::empty(),
        },
    )
}

impl FeedEntry {
    pub fn to_value(&self) -> (v: Value)
        ensures
            v@ == feed_entry_value(self@),
    {
        let mut arr = vec![Value::Uint(self.ref_type), Value::Bytes(bytes_to_vec(&self.hash)), Value::Text(self.reason.clone())];
        match &self.notice {
            Some(n) => arr.push(Value::Bytes(bytes_to_vec(n.as_bytes()))),
            None => {},
        }
        proof {
            lemma_model_list(arr@);
            assert(model_list(arr@) =~= feed_entry_value(self@)->Array_0);
        }
        Value::Array(arr)
    }

    pub fn parse(v: &Value) -> (res: Result<FeedEntry, Error>)
        ensures
            match feed_entry_of(v@) {
                None => res == Err::<FeedEntry, Error>(feed_entry_error(v@)),
                Some(m) => res matches Ok(x) && x@ == m,
            },
    {
        let arr = match v.as_array() {
            Some(a) => a,
            None => {
                return Err(Error::Kind("feed.takedown: add entry must be an array"));
            },
        };
        proof {
            lemma_model_list(arr@);
        }
        if arr.len() < 3 || arr.len() > 4 {
            return Err(Error::Kind("feed.takedown: add entry must be [ref_type, hash, reason, notice?]"));
        }
        let ref_type = match arr[0].as_u64() {
            Some(t) => t,
            None => {
                return Err(Error::Kind("feed.takedown: entry ref_type must be a uint"));
            },
        };
        if ref_type > 1 {
            return Err(Error::Kind("feed.takedown: entry ref_type must be 0 or 1"));
        }
        let hash_bytes = match arr[1].as_bytes() {
            Some(b) => b,
            None => {
                return Err(Error::Kind("feed.takedown: entry hash must be bytes"));
            },
        };
        if hash_bytes.len() != 32 {
            return Err(Error::Kind("feed.takedown: entry hash must be 32 bytes"));
        }
        let hash = array32(hash_bytes);
        let reason = match arr[2].as_text() {
            Some(s) => own(s),
            None => {
                return Err(Error::Kind("feed.takedown: entry reason must be text"));
            },
        };
        let notice = if arr.len() < 4 {
            None
        } else {
            match &arr[3] {
                Value::Null => None,
                n => match n.as_bytes() {
                    Some(b) => {
                        if b.len() != 32 {
                            return Err(Error::Kind("feed.takedown: entry notice must be 32 bytes"));
                        }
                        Some(RecordId(array32(b)))
                    },
                    None => {
                        return Err(Error::Kind("feed.takedown: entry notice must be bytes"));
                    },
                },
            }
        };
        Ok(FeedEntry { ref_type, hash, reason, notice })
    }
}

/// An entry removed from a takedown feed: `[ref_type, hash]`.
#[derive(Debug, Clone, PartialEq, Eq)]
pub struct FeedRemoveEntry {
    /// 0 = record, 1 = blob.
    pub ref_type: u64,
    /// The restored record id or blob id.
    pub hash: [u8; 32],
}

/// A feed removal read from an array.
pub open spec fn feed_remove_of(m: Model) -> Option<(u64, Seq<u8>)> {
    match m {
        Model::Array(items) => if items.len() == 2 && items[0] is Uint && items[0]->Uint_0 <= 1 && is_id32(items[1]) {
            Some((items[0]->Uint_0, items[1]->Bytes_0))
        } else {
            None
        },
        _ => None,
    }
}

/// [`feed_remove_of`] as a function value.
pub open spec fn feed_remove_fn() -> spec_fn(Model) -> Option<(u64, Seq<u8>)> {
    |m: Model| feed_remove_of(m)
}

/// The array a feed removal is written as.
pub open spec fn feed_remove_value(e: (u64, Seq<u8>)) -> Model {
    Model::Array(seq![Model::Uint(e.0), Model::Bytes(e.1)])
}

impl View for FeedRemoveEntry {
    type V = (u64, Seq<u8>);

    open spec fn view(&self) -> (u64, Seq<u8>) {
        (self.ref_type, self.hash@)
    }
}

impl FeedRemoveEntry {
    pub fn to_value(&self) -> (v: Value)
        ensures
            v@ == feed_remove_value(self@),
    {
        let arr = vec![Value::Uint(self.ref_type), Value::Bytes(bytes_to_vec(&self.hash))];
        proof {
            lemma_model_list(arr@);
            assert(model_list(arr@) =~= feed_remove_value(self@)->Array_0);
        }
        Value::Array(arr)
    }

    pub fn parse(v: &Value) -> (res: Result<FeedRemoveEntry, Error>)
        ensures
            match feed_remove_of(v@) {
                None => res matches Err(e) && e is Kind,
                Some(m) => res matches Ok(x) && x@ == m,
            },
    {
        let arr = match v.as_array() {
            Some(a) => a,
            None => {
                return Err(Error::Kind("feed.takedown: remove entry must be an array"));
            },
        };
        proof {
            lemma_model_list(arr@);
        }
        if arr.len() != 2 {
            return Err(Error::Kind("feed.takedown: remove entry must be [ref_type, hash]"));
        }
        let ref_type = match arr[0].as_u64() {
            Some(t) => t,
            None => {
                return Err(Error::Kind("feed.takedown: entry ref_type must be a uint"));
            },
        };
        if ref_type > 1 {
            return Err(Error::Kind("feed.takedown: entry ref_type must be 0 or 1"));
        }
        let hash_bytes = match arr[1].as_bytes() {
            Some(b) => b,
            None => {
                return Err(Error::Kind("feed.takedown: entry hash must be bytes"));
            },
        };
        if hash_bytes.len() != 32 {
            return Err(Error::Kind("feed.takedown: entry hash must be 32 bytes"));
        }
        Ok(FeedRemoveEntry { ref_type, hash: array32(hash_bytes) })
    }
}

/// An update of a takedown feed.
#[derive(Debug, Clone, PartialEq, Eq)]
pub struct FeedTakedown {
    /// Feed name, non-empty.
    pub feed: String,
    /// Sequence number of the update.
    pub seq: u64,
    /// Entries added.
    pub add: Vec<FeedEntry>,
    /// Entries removed.
    pub remove: Vec<FeedRemoveEntry>,
}

/// The content of a feed update.
pub struct FeedTakedownModel {
    pub feed: Seq<char>,
    pub seq: u64,
    pub add: Seq<FeedEntryModel>,
    pub remove: Seq<(u64, Seq<u8>)>,
}

impl View for FeedTakedown {
    type V = FeedTakedownModel;

    open spec fn view(&self) -> FeedTakedownModel {
        FeedTakedownModel {
            feed: self.feed@,
            seq: self.seq,
            add: self.add@.map_values(|e: FeedEntry| e@),
            remove: self.remove@.map_values(|e: FeedRemoveEntry| e@),
        }
    }
}

/// The feed update a record holds: no refs; a feed name, a sequence
/// number, and the (possibly empty) `add` and `remove` arrays.
pub open spec fn feed_takedown_of(r: RecordModel) -> Option<FeedTakedownModel> {
    let b = r.body;
    if r.refs.len() != 0 {
        None
    } else {
        match (req_nonempty_text(b, "feed"@, unbounded()), req_u64(b, "seq"@), req_array(b, "add"@), req_array(b, "remove"@)) {
            (Some(f), Some(s), Some(a), Some(rm)) => match (items_of(a, feed_entry_fn()), items_of(rm, feed_remove_fn())) {
                (Some(add), Some(remove)) => Some(FeedTakedownModel { feed: f, seq: s, add, remove }),
                _ => None,
            },
            _ => None,
        }
    }
}

fn parse_feed_entries(arr: &[Value]) -> (res: Result<Vec<FeedEntry>, Error>)
    ensures
        match items_of(model_list(arr@), feed_entry_fn()) {
            None => res matches Err(e) && e is Kind,
            Some(es) => res matches Ok(v) && v@.map_values(|e: FeedEntry| e@) == es,
        },
{
    proof {
        lemma_model_list(arr@);
    }
    let ghost ms = model_list(arr@);
    let mut out: Vec<FeedEntry> = Vec::new();
    let mut i: usize = 0;
    while i < arr.len()
        invariant
            i <= arr.len(),
            out.len() == i,
            ms == model_list(arr@),
            ms.len() == arr.len(),
            forall|k: int| 0 <= k < arr.len() ==> #[trigger] ms[k] == arr@[k]@,
            forall|k: int| 0 <= k < i ==> #[trigger] feed_entry_of(ms[k]) == Some(out@[k]@),
        decreases arr.len() - i,
    {
        match FeedEntry::parse(&arr[i]) {
            Ok(x) => {
                out.push(x);
            },
            Err(e) => {
                assert(feed_entry_fn()(ms[i as int]) is None);
                return Err(e);
            },
        }
        i = i + 1;
    }
    proof {
        assert forall|k: int| 0 <= k < ms.len() implies (#[trigger] feed_entry_fn()(ms[k])) is Some by {
            assert(feed_entry_of(ms[k]) == Some(out@[k]@));
        }
        assert(out@.map_values(|e: FeedEntry| e@) =~= ms.map_values(|m: Model| feed_entry_fn()(m)->0));
    }
    Ok(out)
}

fn parse_feed_removals(arr: &[Value]) -> (res: Result<Vec<FeedRemoveEntry>, Error>)
    ensures
        match items_of(model_list(arr@), feed_remove_fn()) {
            None => res matches Err(e) && e is Kind,
            Some(es) => res matches Ok(v) && v@.map_values(|e: FeedRemoveEntry| e@) == es,
        },
{
    proof {
        lemma_model_list(arr@);
    }
    let ghost ms = model_list(arr@);
    let mut out: Vec<FeedRemoveEntry> = Vec::new();
    let mut i: usize = 0;
    while i < arr.len()
        invariant
            i <= arr.len(),
            out.len() == i,
            ms == model_list(arr@),
            ms.len() == arr.len(),
            forall|k: int| 0 <= k < arr.len() ==> #[trigger] ms[k] == arr@[k]@,
            forall|k: int| 0 <= k < i ==> #[trigger] feed_remove_of(ms[k]) == Some(out@[k]@),
        decreases arr.len() - i,
    {
        match FeedRemoveEntry::parse(&arr[i]) {
            Ok(x) => {
                out.push(x);
            },
            Err(e) => {
                assert(feed_remove_fn()(ms[i as int]) is None);
                return Err(e);
            },
        }
        i = i + 1;
    }
    proof {
        assert forall|k: int| 0 <= k < ms.len() implies (#[trigger] feed_remove_fn()(ms[k])) is Some by {
            assert(feed_remove_of(ms[k]) == Some(out@[k]@));
        }
        assert(out@.map_values(|e: FeedRemoveEntry| e@) =~= ms.map_values(|m: Model| feed_remove_fn()(m)->0));
    }
    Ok(out)
}

/// The body a feed update is written as.
pub open spec fn feed_takedown_value(f: FeedTakedownModel) -> Model {
    Model::Dict(
        seq![
            (Model::Text("feed"@), Model::Text(f.feed)),
            (Model::Text("seq"@), Model::Uint(f.seq)),
            (Model::Text("add"@), Model::Array(f.add.map_values(|e: FeedEntryModel| feed_entry_value(e)))),
            (Model::Text("remove"@), Model::Array(f.remove.map_values(|e: (u64, Seq<u8>)| feed_remove_value(e)))),
        ],
    )
}

impl FeedTakedown {
    /// Parse and validate a `feed.takedown` record (see
    /// [`feed_takedown_of`]).
    pub fn parse(record: &Record) -> (res: Result<FeedTakedown, Error>)
        ensures
            match feed_takedown_of(record@) {
                None => res matches Err(e) && e is Kind,
                Some(m) => res matches Ok(x) && x@ == m,
            },
    {
        match refs_empty(record, "feed.takedown: refs must be empty") {
            Ok(()) => {},
            Err(e) => {
                return Err(e);
            },
        }
        let body = record.body();
        let feed = match required_nonempty_text(body, "feed", usize::MAX, "feed.takedown: feed required") {
            Ok(x) => x,
            Err(e) => {
                return Err(e);
            },
        };
        let seq = match required_u64(body, "seq", "feed.takedown: seq required") {
            Ok(x) => x,
            Err(e) => {
                return Err(e);
            },
        };
        let add_v = match required_array(body, "add", "feed.takedown: add required (may be empty)") {
            Ok(x) => x,
            Err(e) => {
                return Err(e);
            },
        };
        let add = match parse_feed_entries(add_v) {
            Ok(x) => x,
            Err(e) => {
                return Err(e);
            },
        };
        let remove_v = match required_array(body, "remove", "feed.takedown: remove required (may be empty)") {
            Ok(x) => x,
            Err(e) => {
                return Err(e);
            },
        };
        let remove = match parse_feed_removals(remove_v) {
            Ok(x) => x,
            Err(e) => {
                return Err(e);
            },
        };
        Ok(FeedTakedown { feed, seq, add, remove })
    }

    /// Build the body (see [`feed_takedown_value`]).
    pub fn to_body(&self) -> (v: Value)
        ensures
            v@ == feed_takedown_value(self@),
    {
        let mut adds: Vec<Value> = Vec::new();
        let mut i: usize = 0;
        while i < self.add.len()
            invariant
                i <= self.add.len(),
                adds.len() == i,
                forall|k: int| 0 <= k < i ==> #[trigger] adds@[k]@ == feed_entry_value(self.add@[k]@),
            decreases self.add.len() - i,
        {
            adds.push(self.add[i].to_value());
            i = i + 1;
        }
        let mut rems: Vec<Value> = Vec::new();
        let mut j: usize = 0;
        while j < self.remove.len()
            invariant
                j <= self.remove.len(),
                rems.len() == j,
                forall|k: int| 0 <= k < j ==> #[trigger] rems@[k]@ == feed_remove_value(self.remove@[k]@),
            decreases self.remove.len() - j,
        {
            rems.push(self.remove[j].to_value());
            j = j + 1;
        }
        proof {
            lemma_model_list(adds@);
            lemma_model_list(rems@);
            let wa = self@.add.map_values(|e: FeedEntryModel| feed_entry_value(e));
            assert forall|k: int| 0 <= k < adds@.len() implies #[trigger] model_list(adds@)[k] == wa[k] by {
                assert(model_list(adds@)[k] == adds@[k]@);
            }
            assert(model_list(adds@) =~= wa);
            let wr = self@.remove.map_values(|e: (u64, Seq<u8>)| feed_remove_value(e));
            assert forall|k: int| 0 <= k < rems@.len() implies #[trigger] model_list(rems@)[k] == wr[k] by {
                assert(model_list(rems@)[k] == rems@[k]@);
            }
            assert(model_list(rems@) =~= wr);
        }
        let e = vec![
            (text_value("feed"), Value::Text(self.feed.clone())),
            (text_value("seq"), Value::Uint(self.seq)),
            (text_value("add"), Value::Array(adds)),
            (text_value("remove"), Value::Array(rems)),
        ];
        proof {
            lemma_model_entries(e@);
            assert(model_entries(e@) =~= feed_takedown_value(self@)->Dict_0);
        }
        Value::Dict(e)
    }
}

} // verus!
