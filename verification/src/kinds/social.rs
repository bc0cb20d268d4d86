//! Social kinds: `comment`, `reaction`, `follow`, `playlist`, `channel`,
//! and the identity's `profile` card.

use vstd::prelude::*;
use crate::codec::{Value, Model, model_list, lemma_model_list, model_entries};
use crate::access::spec_map_get;
use crate::error::Error;
use crate::ids::{BlobId, IdentityId, RecordId};
use crate::record::{Record, RecordModel, Ref};
use crate::text::bytes_to_vec;
use crate::kinds::fields::{
    text_value, opt_text, opt_bytes, opt_blob, texts, blobs, record_ids, req_nonempty_text, req_text, text_at,
    bytes32_at, text_array_at, id_array_at, id_list, req_array, ref_id, unbounded, push_entry, strings_value,
    strings_to_value, ids_value, blobs_to_value, required_nonempty_text, required_text, text_field, blob_id_field,
    text_array, blob_id_array, required_array, id_items, ref_record_id, refs_empty, refs_exact, push_if,
};
use crate::kinds::content::{PaymentPointer, payment_views, pairs_at, pairs_value, parse_payments, payments_value, opt_record};

verus! {

/// A profile card: the identity's display name, bio and discovery
/// metadata.
#[derive(Debug, Clone, PartialEq, Eq)]
pub struct Profile {
    /// Display name, non-empty, at most 256 bytes.
    pub name: String,
    /// Bio.
    pub about: Option<String>,
    /// Avatar image blob.
    pub avatar: Option<BlobId>,
    /// Payment pointers.
    pub payment: Vec<PaymentPointer>,
    /// Relay URLs the identity publishes to.
    pub relays: Vec<String>,
    /// Endpoints seeding the identity's blobs.
    pub seeds: Vec<String>,
    /// Encryption public key `[alg, key]`.
    pub enc_key: Option<(u64, Vec<u8>)>,
}

/// The content of a profile.
pub struct ProfileModel {
    pub name: Seq<char>,
    pub about: Option<Seq<char>>,
    pub avatar: Option<Seq<u8>>,
    pub payment: Seq<(u64, Seq<char>)>,
    pub relays: Seq<Seq<char>>,
    pub seeds: Seq<Seq<char>>,
    pub enc_key: Option<(u64, Seq<u8>)>,
}

/// The content of an optional `[alg, key]` pair.
pub open spec fn opt_alg_key(o: Option<(u64, Vec<u8>)>) -> Option<(u64, Seq<u8>)> {
    match o {
        Some(p) => Some((p.0, p.1@)),
        None => None,
    }
}

impl View for Profile {
    type V = ProfileModel;

    open spec fn view(&self) -> ProfileModel {
        ProfileModel {
            name: self.name@,
            about: opt_text(self.about),
            avatar: opt_blob(self.avatar),
            payment: payment_views(self.payment@),
            relays: texts(self.relays@),
            seeds: texts(self.seeds@),
            enc_key: opt_alg_key(self.enc_key),
        }
    }
}

/// The optional encryption key `[alg, key]` of a profile body.
pub open spec fn enc_key_at(b: Model) -> Option<Option<(u64, Seq<u8>)>> {
    match spec_map_get(b, Model::Text("enc_key"@)) {
        None => Some(None),
        Some(Model::Array(items)) => if items.len() == 2 && items[0] is Uint && items[1] is Bytes {
            Some(Some((items[0]->Uint_0, items[1]->Bytes_0)))
        } else {
            None
        },
        Some(_) => None,
    }
}

/// The profile a record holds, if it is a valid profile (no refs, a
/// name, well-typed optional fields).
pub open spec fn profile_of(r: RecordModel) -> Option<ProfileModel> {
    let b = r.body;
    if r.refs.len() != 0 {
        None
    } else {
        match (
            req_nonempty_text(b, "name"@, 256),
            text_at(b, "about"@, unbounded()),
            bytes32_at(b, "avatar"@),
            pairs_at(b, "payment"@),
            text_array_at(b, "relays"@, unbounded()),
            text_array_at(b, "seeds"@, unbounded()),
            enc_key_at(b),
        ) {
            (Some(name), Some(about), Some(avatar), Some(payment), Some(relays), Some(seeds), Some(enc_key)) => Some(
                ProfileModel { name, about, avatar, payment, relays, seeds, enc_key },
            ),
            _ => None,
        }
    }
}

/// The body a profile is written as.
pub open spec fn profile_value(p: ProfileModel) -> Model {
    let e0 = seq![(Model::Text("name"@), Model::Text(p.name))];
    let e1 = push_if(e0, p.about is Some, (Model::Text("about"@), Model::Text(p.about->0)));
    let e2 = push_if(e1, p.avatar is Some, (Model::Text("avatar"@), Model::Bytes(p.avatar->0)));
    let e3 = push_if(e2, p.payment.len() > 0, (Model::Text("payment"@), pairs_value(p.payment)));
    let e4 = push_if(e3, p.relays.len() > 0, (Model::Text("relays"@), strings_value(p.relays)));
    let e5 = push_if(e4, p.seeds.len() > 0, (Model::Text("seeds"@), strings_value(p.seeds)));
    let e6 = push_if(
        e5,
        p.enc_key is Some,
        (Model::Text("enc_key"@), Model::Array(seq![Model::Uint((p.enc_key->0).0), Model::Bytes((p.enc_key->0).1)])),
    );
    Model::Dict(e6)
}

impl Profile {
    /// Parse and validate a `profile` record (see [`profile_of`]).
    pub fn parse(record: &Record) -> (res: Result<Profile, Error>)
        ensures
            match profile_of(record@) {
                None => res matches Err(e) && e is Kind,
                Some(m) => res matches Ok(x) && x@ == m,
            },
    {
        match refs_empty(record, "profile: refs must be empty") {
            Ok(()) => {},
            Err(e) => {
                return Err(e);
            },
        }
        let body = record.body();
        let name = match required_nonempty_text(body, "name", 256, "profile: name required") {
            Ok(x) => x,
            Err(e) => {
                return Err(e);
            },
        };
        let about = match text_field(body, "about", usize::MAX, "profile: about must be text") {
            Ok(x) => x,
            Err(e) => {
                return Err(e);
            },
        };
        let avatar = match blob_id_field(body, "avatar", "profile: avatar must be 32 bytes") {
            Ok(x) => x,
            Err(e) => {
                return Err(e);
            },
        };
        let payment = match parse_payments(body, "payment", "profile: payment must be an array") {
            Ok(x) => x,
            Err(e) => {
                return Err(e);
            },
        };
        let relays = match text_array(body, "relays", usize::MAX, "profile: relay url must be text") {
            Ok(x) => x,
            Err(e) => {
                return Err(e);
            },
        };
        let seeds = match text_array(body, "seeds", usize::MAX, "profile: seed url must be text") {
            Ok(x) => x,
            Err(e) => {
                return Err(e);
            },
        };
        let enc_key = match body.map_get("enc_key") {
            None => None,
            Some(v) => {
                let arr = match v.as_array() {
                    Some(a) => a,
                    None => {
                        return Err(Error::Kind("profile: enc_key must be [alg, key]"));
                    },
                };
                proof {
                    lemma_model_list(arr@);
                }
                if arr.len() != 2 {
                    return Err(Error::Kind("profile: enc_key must have exactly 2 elements"));
                }
                let alg = match arr[0].as_u64() {
                    Some(a) => a,
                    None => {
                        return Err(Error::Kind("profile: enc_key alg must be a uint"));
                    },
                };
                let key = match arr[1].as_bytes() {
                    Some(k) => bytes_to_vec(k),
                    None => {
                        return Err(Error::Kind("profile: enc_key key must be bytes"));
                    },
                };
                Some((alg, key))
            },
        };
        Ok(Profile { name, about, avatar, payment, relays, seeds, enc_key })
    }

    /// Build the body for this profile (see [`profile_value`]).
    pub fn to_body(&self) -> (v: Value)
        ensures
            v@ == profile_value(self@),
    {
        let ghost p = self@;
        let mut e: Vec<(Value, Value)> = Vec::new();
        proof {
            assert(model_entries(e@) =~= Seq::<(Model, Model)>::empty());
        }
        push_entry(&mut e, text_value("name"), Value::Text(self.name.clone()));
        let ghost g = model_entries(e@);
        match &self.about {
            Some(a) => push_entry(&mut e, text_value("about"), Value::Text(a.clone())),
            None => {},
        }
        let ghost g = push_if(g, p.about is Some, (Model::Text("about"@), Model::Text(p.about->0)));
        assert(model_entries(e@) == g);
        match &self.avatar {
            Some(a) => push_entry(&mut e, text_value("avatar"), Value::Bytes(bytes_to_vec(a.as_bytes()))),
            None => {},
        }
        let ghost g = push_if(g, p.avatar is Some, (Model::Text("avatar"@), Model::Bytes(p.avatar->0)));
        assert(model_entries(e@) == g);
        if self.payment.len() > 0 {
            push_entry(&mut e, text_value("payment"), payments_value(&self.payment));
        }
        let ghost g = push_if(g, p.payment.len() > 0, (Model::Text("payment"@), pairs_value(p.payment)));
        assert(model_entries(e@) == g);
        if self.relays.len() > 0 {
            push_entry(&mut e, text_value("relays"), strings_to_value(&self.relays));
        }
        let ghost g = push_if(g, p.relays.len() > 0, (Model::Text("relays"@), strings_value(p.relays)));
        assert(model_entries(e@) == g);
        if self.seeds.len() > 0 {
            push_entry(&mut e, text_value("seeds"), strings_to_value(&self.seeds));
        }
        let ghost g = push_if(g, p.seeds.len() > 0, (Model::Text("seeds"@), strings_value(p.seeds)));
        assert(model_entries(e@) == g);
        match &self.enc_key {
            Some(k) => {
                let pair = vec![Value::Uint(k.0), Value::Bytes(k.1.clone())];
                proof {
                    lemma_model_list(pair@);
                    assert(model_list(pair@) =~= seq![Model::Uint(k.0), Model::Bytes(k.1@)]);
                }
                push_entry(&mut e, text_value("enc_key"), Value::Array(pair));
            },
            None => {},
        }
        Value::Dict(e)
    }
}

/// A comment on a manifest or live stream, optionally threaded.
#[derive(Debug, Clone, PartialEq, Eq)]
pub struct Comment {
    /// The commented-on record (`refs[0]`).
    pub subject: RecordId,
    /// The parent comment (`refs[1]`), for threading.
    pub parent: Option<RecordId>,
    /// Comment text, non-empty, at most 8192 bytes.
    pub text: String,
    /// Attached media.
    pub media: Vec<BlobId>,
}

/// The content of a comment.
pub struct CommentModel {
    pub subject: Seq<u8>,
    pub parent: Option<Seq<u8>>,
    pub text: Seq<char>,
    pub media: Seq<Seq<u8>>,
}

impl View for Comment {
    type V = CommentModel;

    open spec fn view(&self) -> CommentModel {
        CommentModel {
            subject: self.subject.0@,
            parent: opt_record(self.parent),
            text: self.text@,
            media: blobs(self.media@),
        }
    }
}

/// The comment a record holds: one or two record refs (subject, then
/// parent), non-empty text of at most 8192 bytes, and media blob ids.
pub open spec fn comment_of(r: RecordModel) -> Option<CommentModel> {
    if r.refs.len() == 0 || r.refs.len() > 2 {
        None
    } else {
        let parent: Option<Option<Seq<u8>>> = if r.refs.len() == 2 {
            match ref_id(r.refs[1]) {
                Some(h) => Some(Some(h)),
                None => None,
            }
        } else {
            Some(None)
        };
        match (ref_id(r.refs[0]), parent, req_nonempty_text(r.body, "text"@, 8192), id_array_at(r.body, "media"@)) {
            (Some(s), Some(p), Some(t), Some(m)) => Some(CommentModel { subject: s, parent: p, text: t, media: m }),
            _ => None,
        }
    }
}

impl Comment {
    /// Parse and validate a `comment` record (see [`comment_of`]).
    ///
    /// Not checked here (needs the parent): that a parent references the
    /// same subject; see [`check_comment_thread`].
    pub fn parse(record: &Record) -> (res: Result<Comment, Error>)
        ensures
            match comment_of(record@) {
                None => res matches Err(e) && e is Kind,
                Some(m) => res matches Ok(x) && x@ == m,
            },
    {
        let refs = record.refs();
        if refs.len() == 0 || refs.len() > 2 {
            return Err(Error::Kind("comment: refs must have 1 (subject) or 2 (subject, parent) elements"));
        }
        let subject = match ref_record_id(&refs[0], "comment: subject ref must be a record ref") {
            Ok(x) => x,
            Err(e) => {
                return Err(e);
            },
        };
        let parent = if refs.len() == 2 {
            match ref_record_id(&refs[1], "comment: parent ref must be a record ref") {
                Ok(x) => Some(x),
                Err(e) => {
                    return Err(e);
                },
            }
        } else {
            None
        };
        let body = record.body();
        let text = match required_nonempty_text(body, "text", 8192, "comment: text required") {
            Ok(x) => x,
            Err(e) => {
                return Err(e);
            },
        };
        let media = match blob_id_array(body, "media", "comment: media must be an array of blob ids") {
            Ok(x) => x,
            Err(e) => {
                return Err(e);
            },
        };
        Ok(Comment { subject, parent, text, media })
    }

    /// Build the body: the text, then the media when there are any.
    pub fn to_body(&self) -> (v: Value)
        ensures
            v@ == Model::Dict(
                push_if(
                    seq![(Model::Text("text"@), Model::Text(self.text@))],
                    self.media@.len() > 0,
                    (Model::Text("media"@), ids_value(blobs(self.media@))),
                ),
            ),
    {
        let mut e: Vec<(Value, Value)> = Vec::new();
        proof {
            assert(model_entries(e@) =~= Seq::<(Model, Model)>::empty());
        }
        push_entry(&mut e, text_value("text"), Value::Text(self.text.clone()));
        if self.media.len() > 0 {
            push_entry(&mut e, text_value("media"), blobs_to_value(&self.media));
        }
        proof {
            assert(model_entries(e@) =~= push_if(
                seq![(Model::Text("text"@), Model::Text(self.text@))],
                self.media@.len() > 0,
                (Model::Text("media"@), ids_value(blobs(self.media@))),
            ));
        }
        Value::Dict(e)
    }

    /// The refs this comment should carry: `[subject]` or
    /// `[subject, parent]`.
    pub fn refs(&self) -> (r: Vec<Ref>)
        ensures
            r@ == match self.parent {
                Some(p) => seq![Ref { ref_type: 0, hash: self.subject.0 }, Ref { ref_type: 0, hash: p.0 }],
                None => seq![Ref { ref_type: 0, hash: self.subject.0 }],
            },
    {
        let mut r = vec![Ref::record(self.subject)];
        match self.parent {
            Some(p) => r.push(Ref::record(p)),
            None => {},
        }
        proof {
            assert(r@ =~= match self.parent {
                Some(p) => seq![Ref { ref_type: 0, hash: self.subject.0 }, Ref { ref_type: 0, hash: p.0 }],
                None => seq![Ref { ref_type: 0, hash: self.subject.0 }],
            });
        }
        r
    }
}

/// The cross-record half of comment threading: when `comment` has a
/// parent, the parent must comment on the same subject.
pub fn check_comment_thread(comment: &Comment, parent: &Comment) -> (res: Result<(), Error>)
    ensures
        res is Ok <==> (comment.parent is None || comment.subject.0@ == parent.subject.0@),
        res matches Err(e) ==> e == Error::Kind("comment/parent-subject-mismatch"),
{
    match comment.parent {
        None => Ok(()),
        Some(_) => {
            if crate::text::bytes_eq(&comment.subject.0, &parent.subject.0) {
                Ok(())
            } else {
                Err(Error::Kind("comment/parent-subject-mismatch"))
            }
        },
    }
}

/// A reaction to a target record.
#[derive(Debug, Clone, PartialEq, Eq)]
pub struct Reaction {
    /// The reacted-to record (`refs[0]`).
    pub target: RecordId,
    /// An emoji or registered token, at most 32 bytes.
    pub reaction: String,
}

/// The reaction a record holds: one record ref and a reaction of at
/// most 32 bytes.
pub open spec fn reaction_of(r: RecordModel) -> Option<(Seq<u8>, Seq<char>)> {
    if r.refs.len() == 1 {
        match (ref_id(r.refs[0]), req_text(r.body, "reaction"@, 32)) {
            (Some(t), Some(x)) => Some((t, x)),
            _ => None,
        }
    } else {
        None
    }
}

impl Reaction {
    /// Parse and validate a `reaction` record (see [`reaction_of`]).
    pub fn parse(record: &Record) -> (res: Result<Reaction, Error>)
        ensures
            match reaction_of(record@) {
                None => res matches Err(e) && e is Kind,
                Some(m) => res matches Ok(x) && x.target.0@ == m.0 && x.reaction@ == m.1,
            },
    {
        match refs_exact(record, 1, "reaction: refs must be exactly one target ref") {
            Ok(()) => {},
            Err(e) => {
                return Err(e);
            },
        }
        let target = match ref_record_id(&record.refs()[0], "reaction: ref must be a record ref") {
            Ok(x) => x,
            Err(e) => {
                return Err(e);
            },
        };
        let reaction = match required_text(record.body(), "reaction", 32, "reaction: reaction required (<=32 bytes)") {
            Ok(x) => x,
            Err(e) => {
                return Err(e);
            },
        };
        Ok(Reaction { target, reaction })
    }

    /// Build the body: the reaction.
    pub fn to_body(&self) -> (v: Value)
        ensures
            v@ == Model::Dict(seq![(Model::Text("reaction"@), Model::Text(self.reaction@))]),
    {
        let mut e: Vec<(Value, Value)> = Vec::new();
        proof {
            assert(model_entries(e@) =~= Seq::<(Model, Model)>::empty());
        }
        push_entry(&mut e, text_value("reaction"), Value::Text(self.reaction.clone()));
        proof {
            assert(model_entries(e@) =~= seq![(Model::Text("reaction"@), Model::Text(self.reaction@))]);
        }
        Value::Dict(e)
    }

    /// The refs this record should carry: the target.
    pub fn refs(&self) -> (r: Vec<Ref>)
        ensures
            r@ == seq![Ref { ref_type: 0, hash: self.target.0 }],
    {
        vec![Ref::record(self.target)]
    }
}

/// "This identity follows that identity."
#[derive(Debug, Clone, PartialEq, Eq)]
pub struct Follow {
    /// The followed identity, referenced by its genesis record id.
    pub followed: IdentityId,
    /// Optional note.
    pub note: Option<String>,
}

/// The follow a record holds: one record ref and an optional note.
pub open spec fn follow_of(r: RecordModel) -> Option<(Seq<u8>, Option<Seq<char>>)> {
    if r.refs.len() == 1 {
        match (ref_id(r.refs[0]), text_at(r.body, "note"@, unbounded())) {
            (Some(t), Some(n)) => Some((t, n)),
            _ => None,
        }
    } else {
        None
    }
}

impl Follow {
    /// Parse and validate a `follow` record (see [`follow_of`]).
    pub fn parse(record: &Record) -> (res: Result<Follow, Error>)
        ensures
            match follow_of(record@) {
                None => res matches Err(e) && e is Kind,
                Some(m) => res matches Ok(x) && x.followed.0@ == m.0 && opt_text(x.note) == m.1,
            },
    {
        match refs_exact(record, 1, "follow: refs must be exactly one followed-identity ref") {
            Ok(()) => {},
            Err(e) => {
                return Err(e);
            },
        }
        let r = &record.refs()[0];
        if !r.is_record() {
            return Err(Error::Kind("follow: ref must be a record ref"));
        }
        let followed = IdentityId(r.hash);
        let note = match text_field(record.body(), "note", usize::MAX, "follow: note must be text") {
            Ok(x) => x,
            Err(e) => {
                return Err(e);
            },
        };
        Ok(Follow { followed, note })
    }

    /// Build the body: the note, when given.
    pub fn to_body(&self) -> (v: Value)
        ensures
            v@ == Model::Dict(
                match self.note {
                    Some(n) => seq![(Model::Text("note"@), Model::Text(n@))],
                    None => Seq::empty(),
                },
            ),
    {
        let mut e: Vec<(Value, Value)> = Vec::new();
        proof {
            assert(model_entries(e@) =~= Seq::<(Model, Model)>::empty());
        }
        match &self.note {
            Some(n) => push_entry(&mut e, text_value("note"), Value::Text(n.clone())),
            None => {},
        }
        proof {
            assert(model_entries(e@) =~= match self.note {
                Some(n) => seq![(Model::Text("note"@), Model::Text(n@))],
                None => Seq::empty(),
            });
        }
        Value::Dict(e)
    }

    /// The refs this record should carry: the followed identity's
    /// genesis record id.
    pub fn refs(&self) -> (r: Vec<Ref>)
        ensures
            r@ == seq![Ref { ref_type: 0, hash: self.followed.0 }],
    {
        vec![Ref::record(RecordId(self.followed.0))]
    }
}

/// An ordered list of manifests.
#[derive(Debug, Clone, PartialEq, Eq)]
pub struct Playlist {
    /// Title, non-empty, at most 512 bytes.
    pub title: String,
    /// Description, at most 16384 bytes.
    pub description: Option<String>,
    /// Manifest record ids, in order; non-empty.
    pub entries: Vec<RecordId>,
}

/// The playlist a record holds: no refs, a title, an optional
/// description, and a non-empty array of 32-byte record ids.
pub open spec fn playlist_of(r: RecordModel) -> Option<(Seq<char>, Option<Seq<char>>, Seq<Seq<u8>>)> {
    if r.refs.len() != 0 {
        None
    } else {
        match (
            req_nonempty_text(r.body, "title"@, 512),
            text_at(r.body, "description"@, 16384),
            req_array(r.body, "entries"@),
        ) {
            (Some(t), Some(d), Some(items)) => if items.len() > 0 {
                match id_list(items) {
                    Some(ids) => Some((t, d, ids)),
                    None => None,
                }
            } else {
                None
            },
            _ => None,
        }
    }
}

impl Playlist {
    /// Parse and validate a `playlist` record (see [`playlist_of`]).
    pub fn parse(record: &Record) -> (res: Result<Playlist, Error>)
        ensures
            match playlist_of(record@) {
                None => res matches Err(e) && e is Kind,
                Some(m) => res matches Ok(x) && x.title@ == m.0 && opt_text(x.description) == m.1
                    && record_ids(x.entries@) == m.2,
            },
    {
        match refs_empty(record, "playlist: refs must be empty") {
            Ok(()) => {},
            Err(e) => {
                return Err(e);
            },
        }
        let body = record.body();
        let title = match required_nonempty_text(body, "title", 512, "playlist: title required") {
            Ok(x) => x,
            Err(e) => {
                return Err(e);
            },
        };
        let description = match text_field(body, "description", 16384, "playlist: description too long") {
            Ok(x) => x,
            Err(e) => {
                return Err(e);
            },
        };
        let entries_v = match required_array(body, "entries", "playlist: entries required") {
            Ok(x) => x,
            Err(e) => {
                return Err(e);
            },
        };
        proof {
            lemma_model_list(entries_v@);
        }
        if entries_v.len() == 0 {
            return Err(Error::Kind("playlist: entries must be non-empty"));
        }
        let ids = match id_items(entries_v, "playlist: entry must be 32 bytes") {
            Ok(x) => x,
            Err(e) => {
                return Err(e);
            },
        };
        let mut entries: Vec<RecordId> = Vec::new();
        let mut i: usize = 0;
        while i < ids.len()
            invariant
                i <= ids.len(),
                entries.len() == i,
                forall|k: int| 0 <= k < i ==> #[trigger] entries@[k].0@ == ids@[k]@,
            decreases ids.len() - i,
        {
            entries.push(RecordId(ids[i]));
            i = i + 1;
        }
        assert(record_ids(entries@) =~= ids@.map_values(|a: [u8; 32]| a@));
        Ok(Playlist { title, description, entries })
    }

    /// Build the body: title and entries, then the description when
    /// given.
    pub fn to_body(&self) -> (v: Value)
        ensures
            v@ == Model::Dict(
                push_if(
                    seq![
                        (Model::Text("title"@), Model::Text(self.title@)),
                        (Model::Text("entries"@), ids_value(record_ids(self.entries@))),
                    ],
                    self.description is Some,
                    (Model::Text("description"@), Model::Text(self.description->0@)),
                ),
            ),
    {
        let mut items: Vec<Value> = Vec::new();
        let mut i: usize = 0;
        while i < self.entries.len()
            invariant
                i <= self.entries.len(),
                items.len() == i,
                forall|k: int| 0 <= k < i ==> #[trigger] items@[k]@ == Model::Bytes(self.entries@[k].0@),
            decreases self.entries.len() - i,
        {
            items.push(Value::Bytes(bytes_to_vec(self.entries[i].as_bytes())));
            i = i + 1;
        }
        proof {
            lemma_model_list(items@);
            let want = record_ids(self.entries@).map_values(|b: Seq<u8>| Model::Bytes(b));
            assert forall|k: int| 0 <= k < items@.len() implies #[trigger] model_list(items@)[k] == want[k] by {
                assert(model_list(items@)[k] == items@[k]@);
            }
            assert(model_list(items@) =~= want);
        }
        let mut e: Vec<(Value, Value)> = Vec::new();
        proof {
            assert(model_entries(e@) =~= Seq::<(Model, Model)>::empty());
        }
        push_entry(&mut e, text_value("title"), Value::Text(self.title.clone()));
        push_entry(&mut e, text_value("entries"), Value::Array(items));
        match &self.description {
            Some(d) => push_entry(&mut e, text_value("description"), Value::Text(d.clone())),
            None => {},
        }
        proof {
            assert(model_entries(e@) =~= push_if(
                seq![
                    (Model::Text("title"@), Model::Text(self.title@)),
                    (Model::Text("entries"@), ids_value(record_ids(self.entries@))),
                ],
                self.description is Some,
                (Model::Text("description"@), Model::Text(self.description->0@)),
            ));
        }
        Value::Dict(e)
    }
}

/// A named collection an identity publishes manifests into.
#[derive(Debug, Clone, PartialEq, Eq)]
pub struct Channel {
    /// Title, non-empty, at most 512 bytes.
    pub title: String,
    /// Description, at most 16384 bytes.
    pub description: Option<String>,
    /// Avatar image blob.
    pub avatar: Option<BlobId>,
    /// Banner image blob.
    pub banner: Option<BlobId>,
}

/// The channel a record holds: no refs, a title, an optional
/// description, avatar and banner.
pub open spec fn channel_of(r: RecordModel) -> Option<(Seq<char>, Option<Seq<char>>, Option<Seq<u8>>, Option<Seq<u8>>)> {
    if r.refs.len() != 0 {
        None
    } else {
        match (
            req_nonempty_text(r.body, "title"@, 512),
            text_at(r.body, "description"@, 16384),
            bytes32_at(r.body, "avatar"@),
            bytes32_at(r.body, "banner"@),
        ) {
            (Some(t), Some(d), Some(a), Some(b)) => Some((t, d, a, b)),
            _ => None,
        }
    }
}

/// The body a channel is written as.
pub open spec fn channel_value(t: Seq<char>, d: Option<Seq<char>>, a: Option<Seq<u8>>, b: Option<Seq<u8>>) -> Model {
    let e0 = seq![(Model::Text("title"@), Model::Text(t))];
    let e1 = push_if(e0, d is Some, (Model::Text("description"@), Model::Text(d->0)));
    let e2 = push_if(e1, a is Some, (Model::Text("avatar"@), Model::Bytes(a->0)));
    Model::Dict(push_if(e2, b is Some, (Model::Text("banner"@), Model::Bytes(b->0))))
}

impl Channel {
    /// Parse and validate a `channel` record (see [`channel_of`]).
    pub fn parse(record: &Record) -> (res: Result<Channel, Error>)
        ensures
            match channel_of(record@) {
                None => res matches Err(e) && e is Kind,
                Some(m) => res matches Ok(x) && x.title@ == m.0 && opt_text(x.description) == m.1
                    && opt_blob(x.avatar) == m.2 && opt_blob(x.banner) == m.3,
            },
    {
        match refs_empty(record, "channel: refs must be empty") {
            Ok(()) => {},
            Err(e) => {
                return Err(e);
            },
        }
        let body = record.body();
        let title = match required_nonempty_text(body, "title", 512, "channel: title required") {
            Ok(x) => x,
            Err(e) => {
                return Err(e);
            },
        };
        let description = match text_field(body, "description", 16384, "channel: description too long") {
            Ok(x) => x,
            Err(e) => {
                return Err(e);
            },
        };
        let avatar = match blob_id_field(body, "avatar", "channel: avatar must be 32 bytes") {
            Ok(x) => x,
            Err(e) => {
                return Err(e);
            },
        };
        let banner = match blob_id_field(body, "banner", "channel: banner must be 32 bytes") {
            Ok(x) => x,
            Err(e) => {
                return Err(e);
            },
        };
        Ok(Channel { title, description, avatar, banner })
    }

    /// Build the body for this channel (see [`channel_value`]).
    pub fn to_body(&self) -> (v: Value)
        ensures
            v@ == channel_value(self.title@, opt_text(self.description), opt_blob(self.avatar), opt_blob(self.banner)),
    {
        let mut e: Vec<(Value, Value)> = Vec::new();
        proof {
            assert(model_entries(e@) =~= Seq::<(Model, Model)>::empty());
        }
        push_entry(&mut e, text_value("title"), Value::Text(self.title.clone()));
        match &self.description {
            Some(d) => push_entry(&mut e, text_value("description"), Value::Text(d.clone())),
            None => {},
        }
        match &self.avatar {
            Some(a) => push_entry(&mut e, text_value("avatar"), Value::Bytes(bytes_to_vec(a.as_bytes()))),
            None => {},
        }
        match &self.banner {
            Some(b) => push_entry(&mut e, text_value("banner"), Value::Bytes(bytes_to_vec(b.as_bytes()))),
            None => {},
        }
        proof {
            assert(model_entries(e@) =~= channel_value(
                self.title@,
                opt_text(self.description),
                opt_blob(self.avatar),
                opt_blob(self.banner),
            )->Dict_0);
        }
        Value::Dict(e)
    }
}

} // verus!
