#![allow(unused_imports)]
use vidmesh::kinds::content::{
    Hint, PaymentPointer, Sponsor, Encryption, Media, Rendition, Caption, Manifest, DERIVATION_SIG_PREFIX,
    derivation_statement, verify_derivation, Delegate, check_delegate_revocation, Supersede, Retract,
    check_retract_target_kind, Mirror, Similarity,
};
use vidmesh::kinds::social::{Profile, Comment, check_comment_thread, Reaction, Follow, Playlist, Channel};
use vidmesh::kinds::claims::{ClaimAuthor, ClaimLicense, ClaimTransfer, ClaimDispute, check_dispute_target_kind};
use vidmesh::kinds::compliance::{Claimant, NoticeTakedown, NoticeCounter, FeedEntry, FeedRemoveEntry, FeedTakedown};
use vidmesh::kinds::infra::{MAX_INLINE_PROOF, AnchorProof, Anchor, Keygrant};
use vidmesh::kinds::live::{LiveSegment, LiveManifest, LiveChat};
use vidmesh::kinds::trust::{EndorseGateway, Receipt, Attest};
use vidmesh::kinds::{
    validate, KIND_ROTATION, KIND_PROFILE, KIND_DELEGATE, KIND_MANIFEST, KIND_SUPERSEDE, KIND_RETRACT,
    KIND_MIRROR, KIND_SIMILARITY, KIND_COMMENT, KIND_REACTION, KIND_FOLLOW, KIND_PLAYLIST, KIND_CHANNEL,
    KIND_CLAIM_AUTHOR, KIND_CLAIM_LICENSE, KIND_CLAIM_TRANSFER, KIND_CLAIM_DISPUTE, KIND_NOTICE_TAKEDOWN,
    KIND_NOTICE_COUNTER, KIND_FEED_TAKEDOWN, KIND_ENDORSE_GATEWAY, KIND_RECEIPT, KIND_ATTEST, KIND_ANCHOR,
    KIND_KEYGRANT, KIND_LIVE_MANIFEST, KIND_LIVE_CHAT,
};
use vidmesh::keys::Keypair;
use vidmesh::record::{Record, RecordBuilder, Ref, SIG_ALG_ED25519};
use vidmesh::ids::{IdentityId, RecordId, BlobId};
use vidmesh::codec::{Value, encode_canonical};
use vidmesh::error::Error;


fn kp() -> Keypair {
    Keypair::from_secret_bytes(&[8u8; 32])
}

fn author() -> IdentityId {
    IdentityId([2; 32])
}

fn sign(kind: u64, refs: Vec<Ref>, body: Value) -> Record {
    RecordBuilder::new(kind)
        .created_at(1)
        .refs(refs)
        .body(body)
        .sign_as(&kp(), author())
        .unwrap()
}

fn sample_claimant() -> Claimant {
    Claimant {
        name: "Example Pictures LLC".into(),
        contact: "legal@example.com".into(),
        on_behalf_of: None,
    }
}

#[test]
fn notice_takedown_round_trip() {
    let n = NoticeTakedown {
        subjects: vec![Ref::record(RecordId([1; 32]))],
        regime: "us-dmca-512".into(),
        claimant: sample_claimant(),
        statement: "I have a good faith belief...".into(),
        work: "\"Winter Film\" (2024), reg. PA0002419331".into(),
        signature_name: "J. Doe".into(),
    };
    let record = sign(KIND_NOTICE_TAKEDOWN, n.refs(), n.to_body());
    let back = NoticeTakedown::parse(&record).unwrap();
    assert_eq!(back, n);
}

#[test]
fn notice_takedown_rejects_empty_refs() {
    let body = Value::Dict(vec![(
        Value::Text("regime".into()),
        Value::Text("us-dmca-512".into()),
    )]);
    let record = sign(KIND_NOTICE_TAKEDOWN, vec![], body);
    assert!(matches!(
        NoticeTakedown::parse(&record),
        Err(Error::Kind(_))
    ));
}

#[test]
fn notice_takedown_rejects_missing_statement() {
    let body = Value::Dict(vec![
        (
            Value::Text("regime".into()),
            Value::Text("us-dmca-512".into()),
        ),
        (Value::Text("claimant".into()), sample_claimant().to_value()),
        (Value::Text("work".into()), Value::Text("work".into())),
        (
            Value::Text("signature_name".into()),
            Value::Text("J. Doe".into()),
        ),
    ]);
    let record = sign(
        KIND_NOTICE_TAKEDOWN,
        vec![Ref::record(RecordId([1; 32]))],
        body,
    );
    assert!(matches!(
        NoticeTakedown::parse(&record),
        Err(Error::Kind(_))
    ));
}

#[test]
fn notice_counter_round_trip_without_work() {
    let n = NoticeCounter {
        target: RecordId([1; 32]),
        regime: "us-dmca-512".into(),
        claimant: Claimant {
            name: "A. Creator".into(),
            contact: "a@example.net".into(),
            on_behalf_of: None,
        },
        statement: "I have a good faith belief the material was removed by mistake...".into(),
        work: None,
        signature_name: "A. Creator".into(),
    };
    let record = sign(KIND_NOTICE_COUNTER, n.refs(), n.to_body());
    let back = NoticeCounter::parse(&record).unwrap();
    assert_eq!(back, n);
}

#[test]
fn notice_counter_rejects_wrong_refs_count() {
    let body = Value::Dict(vec![
        (
            Value::Text("regime".into()),
            Value::Text("us-dmca-512".into()),
        ),
        (Value::Text("claimant".into()), sample_claimant().to_value()),
        (Value::Text("statement".into()), Value::Text("s".into())),
        (
            Value::Text("signature_name".into()),
            Value::Text("A".into()),
        ),
    ]);
    let record = sign(KIND_NOTICE_COUNTER, vec![], body);
    assert!(matches!(NoticeCounter::parse(&record), Err(Error::Kind(_))));
}

#[test]
fn feed_takedown_round_trip() {
    let f = FeedTakedown {
        feed: "example-org/us".into(),
        seq: 4182,
        add: vec![FeedEntry {
            ref_type: 1,
            hash: [0x0b; 32],
            reason: "copyright".into(),
            notice: Some(RecordId([0x91; 32])),
        }],
        remove: vec![],
    };
    let record = sign(KIND_FEED_TAKEDOWN, vec![], f.to_body());
    let back = FeedTakedown::parse(&record).unwrap();
    assert_eq!(back, f);
}

#[test]
fn feed_takedown_add_entry_without_notice_round_trips() {
    let f = FeedTakedown {
        feed: "example-org/us".into(),
        seq: 1,
        add: vec![FeedEntry {
            ref_type: 0,
            hash: [1; 32],
            reason: "court-order".into(),
            notice: None,
        }],
        remove: vec![FeedRemoveEntry {
            ref_type: 1,
            hash: [2; 32],
        }],
    };
    let record = sign(KIND_FEED_TAKEDOWN, vec![], f.to_body());
    let back = FeedTakedown::parse(&record).unwrap();
    assert_eq!(back, f);
}

#[test]
fn feed_takedown_allows_empty_add_and_remove() {
    let body = Value::Dict(vec![
        (Value::Text("feed".into()), Value::Text("f".into())),
        (Value::Text("seq".into()), Value::Uint(1)),
        (Value::Text("add".into()), Value::Array(vec![])),
        (Value::Text("remove".into()), Value::Array(vec![])),
    ]);
    let record = sign(KIND_FEED_TAKEDOWN, vec![], body);
    assert!(FeedTakedown::parse(&record).is_ok());
}

#[test]
fn feed_takedown_rejects_missing_add() {
    let body = Value::Dict(vec![
        (Value::Text("feed".into()), Value::Text("f".into())),
        (Value::Text("seq".into()), Value::Uint(1)),
        (Value::Text("remove".into()), Value::Array(vec![])),
    ]);
    let record = sign(KIND_FEED_TAKEDOWN, vec![], body);
    assert!(matches!(FeedTakedown::parse(&record), Err(Error::Kind(_))));
}

#[test]
fn feed_takedown_rejects_nonempty_refs() {
    let body = Value::Dict(vec![
        (Value::Text("feed".into()), Value::Text("f".into())),
        (Value::Text("seq".into()), Value::Uint(1)),
        (Value::Text("add".into()), Value::Array(vec![])),
        (Value::Text("remove".into()), Value::Array(vec![])),
    ]);
    let record = sign(
        KIND_FEED_TAKEDOWN,
        vec![Ref::record(RecordId([1; 32]))],
        body,
    );
    assert!(matches!(FeedTakedown::parse(&record), Err(Error::Kind(_))));
}

#[test]
fn feed_entry_rejects_bad_ref_type() {
    let v = Value::Array(vec![
        Value::Uint(2),
        Value::Bytes(vec![0; 32]),
        Value::Text("copyright".into()),
    ]);
    assert!(matches!(FeedEntry::parse(&v), Err(Error::Kind(_))));
}

#[test]
fn feed_entry_errors_are_exact() {
    let v = Value::Array(vec![Value::Uint(2), Value::Bytes(vec![0; 32]), Value::Text("copyright".into())]);
    assert_eq!(FeedEntry::parse(&v).unwrap_err(), Error::Kind("feed.takedown: entry ref_type must be 0 or 1"));
    let v1 = Value::Array(vec![Value::Uint(1), Value::Bytes(vec![0; 32]), Value::Text("copyright".into())]);
    let e = FeedEntry::parse(&v1).unwrap();
    assert_eq!(e.ref_type, 1);
    assert!(e.notice.is_none());
}
