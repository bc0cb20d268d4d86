#![allow(unused_imports)]
use vidmesh::kinds::content::{
    Hint, PaymentPointer, Sponsor, Encryption, Media, Rendition, Caption, Manifest, DERIVATION_SIG_PREFIX,
    derivation_statement, verify_derivation, Delegate, check_delegate_revocation, Supersede, Retract,
    check_retract_target_kind, Mirror, Similarity,
};
use vidmesh::kinds::social::{Profile, Comment, check_comment_thread, Reaction, Follow, Playlist, Channel};
use vidmesh::kinds::claims::{ClaimAuthor, ClaimLicense, ClaimTransfer, ClaimDispute, check_dispute_target_kind};
use vidmesh::kinds::compliance::{Claimant, NoticeTakedown, NoticeCounter, FeedEntry, FeedRemoveEntry, FeedTakedown};
use vidmesh::kinds::infra::{MAX_INLINE_PROOF, AnchorProof, Anchor, Keygrant};
use vidmesh::kinds::live::{LiveSegment, LiveManifest, LiveChat};
use vidmesh::kinds::trust::{EndorseGateway, Receipt, Attest};
use vidmesh::kinds::{
    validate, KIND_ROTATION, KIND_PROFILE, KIND_DELEGATE, KIND_MANIFEST, KIND_SUPERSEDE, KIND_RETRACT,
    KIND_MIRROR, KIND_SIMILARITY, KIND_COMMENT, KIND_REACTION, KIND_FOLLOW, KIND_PLAYLIST, KIND_CHANNEL,
    KIND_CLAIM_AUTHOR, KIND_CLAIM_LICENSE, KIND_CLAIM_TRANSFER, KIND_CLAIM_DISPUTE, KIND_NOTICE_TAKEDOWN,
    KIND_NOTICE_COUNTER, KIND_FEED_TAKEDOWN, KIND_ENDORSE_GATEWAY, KIND_RECEIPT, KIND_ATTEST, KIND_ANCHOR,
    KIND_KEYGRANT, KIND_LIVE_MANIFEST, KIND_LIVE_CHAT,
};
use vidmesh::keys::Keypair;
use vidmesh::record::{Record, RecordBuilder, Ref, SIG_ALG_ED25519};
use vidmesh::ids::{IdentityId, RecordId, BlobId};
use vidmesh::codec::{Value, encode_canonical};
use vidmesh::error::Error;


fn kp() -> Keypair {
    Keypair::from_secret_bytes(&[15u8; 32])
}

fn author() -> IdentityId {
    IdentityId([16; 32])
}

fn sign(kind: u64, refs: Vec<Ref>, body: Value) -> Record {
    RecordBuilder::new(kind)
        .created_at(1)
        .refs(refs)
        .body(body)
        .sign_as(&kp(), author())
        .unwrap()
}

#[test]
fn live_manifest_stream_open_append_final_triple() {
    let open = LiveManifest {
        stream: None,
        title: Some("Field Notes live".into()),
        seq: 0,
        segments: vec![LiveSegment {
            blob: BlobId([1; 32]),
            duration_ms: 2000,
        }],
        is_final: false,
    };
    let open_record = sign(
        KIND_LIVE_MANIFEST,
        open.refs(),
        open.to_body(),
    );
    let back_open = LiveManifest::parse(&open_record).unwrap();
    assert_eq!(back_open, open);

    let stream_id = open_record.id();
    let append = LiveManifest {
        stream: Some(stream_id),
        title: None,
        seq: 1,
        segments: vec![LiveSegment {
            blob: BlobId([2; 32]),
            duration_ms: 2000,
        }],
        is_final: false,
    };
    let append_record = sign(
        KIND_LIVE_MANIFEST,
        append.refs(),
        append.to_body(),
    );
    assert_eq!(LiveManifest::parse(&append_record).unwrap(), append);

    let close = LiveManifest {
        stream: Some(stream_id),
        title: None,
        seq: 2,
        segments: vec![],
        is_final: true,
    };
    let close_record = sign(
        KIND_LIVE_MANIFEST,
        close.refs(),
        close.to_body(),
    );
    assert_eq!(LiveManifest::parse(&close_record).unwrap(), close);
}

#[test]
fn live_manifest_rejects_empty_refs_title_missing() {
    let body = Value::Dict(vec![
        (Value::Text("seq".into()), Value::Uint(0)),
        (Value::Text("segments".into()), Value::Array(vec![])),
        (Value::Text("final".into()), Value::Bool(false)),
    ]);
    let record = sign(KIND_LIVE_MANIFEST, vec![], body);
    assert!(matches!(LiveManifest::parse(&record), Err(Error::Kind(_))));
}

#[test]
fn live_manifest_refs_shape_is_the_only_first_record_signal() {
    // Spec 003 §9.1 defines "first record of a stream" purely by
    // refs shape (empty), not by an out-of-band notion of sequence
    // position — so a record with a high `seq` but empty refs is a
    // (perhaps unusual, but fully valid) new stream's first record
    // as long as it carries the otherwise-required title. This is
    // the one live.manifest rule spec 004's "later record with
    // empty refs" test vector exercises, and it is fully checkable
    // from the record alone (no second record needed).
    let body = Value::Dict(vec![
        (
            Value::Text("title".into()),
            Value::Text("unusual but valid".into()),
        ),
        (Value::Text("seq".into()), Value::Uint(5)),
        (Value::Text("segments".into()), Value::Array(vec![])),
        (Value::Text("final".into()), Value::Bool(false)),
    ]);
    let record = sign(KIND_LIVE_MANIFEST, vec![], body);
    assert!(LiveManifest::parse(&record).is_ok());

    // The same shape without a title is invalid: empty refs means
    // "first record", and first records require a title.
    let body_no_title = Value::Dict(vec![
        (Value::Text("seq".into()), Value::Uint(5)),
        (Value::Text("segments".into()), Value::Array(vec![])),
        (Value::Text("final".into()), Value::Bool(false)),
    ]);
    let record_no_title = sign(KIND_LIVE_MANIFEST, vec![], body_no_title);
    assert!(matches!(
        LiveManifest::parse(&record_no_title),
        Err(Error::Kind(_))
    ));
}

#[test]
fn live_manifest_rejects_too_many_refs() {
    let body = Value::Dict(vec![
        (Value::Text("seq".into()), Value::Uint(1)),
        (Value::Text("segments".into()), Value::Array(vec![])),
        (Value::Text("final".into()), Value::Bool(false)),
    ]);
    let record = sign(
        KIND_LIVE_MANIFEST,
        vec![
            Ref::record(RecordId([1; 32])),
            Ref::record(RecordId([2; 32])),
        ],
        body,
    );
    assert!(matches!(LiveManifest::parse(&record), Err(Error::Kind(_))));
}

#[test]
fn live_chat_round_trip() {
    let c = LiveChat {
        stream: RecordId([1; 32]),
        text: "gg \u{1F525}".into(),
    };
    let record = sign(KIND_LIVE_CHAT, c.refs(), c.to_body());
    let back = LiveChat::parse(&record).unwrap();
    assert_eq!(back, c);
}

#[test]
fn live_chat_rejects_empty_text() {
    let body = Value::Dict(vec![(Value::Text("text".into()), Value::Text("".into()))]);
    let record = sign(
        KIND_LIVE_CHAT,
        vec![Ref::record(RecordId([1; 32]))],
        body,
    );
    assert!(matches!(LiveChat::parse(&record), Err(Error::Kind(_))));
}

#[test]
fn live_chat_rejects_oversized_text() {
    let body = Value::Dict(vec![(
        Value::Text("text".into()),
        Value::Text("x".repeat(2049)),
    )]);
    let record = sign(
        KIND_LIVE_CHAT,
        vec![Ref::record(RecordId([1; 32]))],
        body,
    );
    assert!(matches!(LiveChat::parse(&record), Err(Error::Kind(_))));
}

#[test]
fn live_chat_rejects_wrong_refs_count() {
    let body = Value::Dict(vec![(Value::Text("text".into()), Value::Text("hi".into()))]);
    let record = sign(KIND_LIVE_CHAT, vec![], body);
    assert!(matches!(LiveChat::parse(&record), Err(Error::Kind(_))));
}
