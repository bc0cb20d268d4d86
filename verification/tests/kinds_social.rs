#![allow(unused_imports)]
use vidmesh::kinds::content::{
    Hint, PaymentPointer, Sponsor, Encryption, Media, Rendition, Caption, Manifest, DERIVATION_SIG_PREFIX,
    derivation_statement, verify_derivation, Delegate, check_delegate_revocation, Supersede, Retract,
    check_retract_target_kind, Mirror, Similarity,
};
use vidmesh::kinds::social::{Profile, Comment, check_comment_thread, Reaction, Follow, Playlist, Channel};
use vidmesh::kinds::claims::{ClaimAuthor, ClaimLicense, ClaimTransfer, ClaimDispute, check_dispute_target_kind};
use vidmesh::kinds::compliance::{Claimant, NoticeTakedown, NoticeCounter, FeedEntry, FeedRemoveEntry, FeedTakedown};
use vidmesh::kinds::infra::{MAX_INLINE_PROOF, AnchorProof, Anchor, Keygrant};
use vidmesh::kinds::live::{LiveSegment, LiveManifest, LiveChat};
use vidmesh::kinds::trust::{EndorseGateway, Receipt, Attest};
use vidmesh::kinds::{
    validate, KIND_ROTATION, KIND_PROFILE, KIND_DELEGATE, KIND_MANIFEST, KIND_SUPERSEDE, KIND_RETRACT,
    KIND_MIRROR, KIND_SIMILARITY, KIND_COMMENT, KIND_REACTION, KIND_FOLLOW, KIND_PLAYLIST, KIND_CHANNEL,
    KIND_CLAIM_AUTHOR, KIND_CLAIM_LICENSE, KIND_CLAIM_TRANSFER, KIND_CLAIM_DISPUTE, KIND_NOTICE_TAKEDOWN,
    KIND_NOTICE_COUNTER, KIND_FEED_TAKEDOWN, KIND_ENDORSE_GATEWAY, KIND_RECEIPT, KIND_ATTEST, KIND_ANCHOR,
    KIND_KEYGRANT, KIND_LIVE_MANIFEST, KIND_LIVE_CHAT,
};
use vidmesh::keys::Keypair;
use vidmesh::record::{Record, RecordBuilder, Ref, SIG_ALG_ED25519};
use vidmesh::ids::{IdentityId, RecordId, BlobId};
use vidmesh::codec::{Value, encode_canonical};
use vidmesh::error::Error;


fn kp() -> Keypair {
    Keypair::from_secret_bytes(&[3u8; 32])
}

fn author() -> IdentityId {
    IdentityId([4; 32])
}

fn sign(kind: u64, refs: Vec<Ref>, body: Value) -> Record {
    RecordBuilder::new(kind)
        .created_at(1)
        .refs(refs)
        .body(body)
        .sign_as(&kp(), author())
        .unwrap()
}

#[test]
fn profile_round_trip() {
    let p = Profile {
        name: "asha".into(),
        about: Some("field recordings".into()),
        avatar: Some(BlobId([1; 32])),
        payment: vec![PaymentPointer(1, "asha@ln.example.net".into())],
        relays: vec!["wss://relay.example.net/sync".into()],
        seeds: vec!["https://seed.example.net".into()],
        enc_key: Some((1, vec![9u8; 32])),
    };
    let record = sign(KIND_PROFILE, vec![], p.to_body());
    let back = Profile::parse(&record).unwrap();
    assert_eq!(back, p);
}

#[test]
fn profile_rejects_nonempty_refs() {
    let body = Value::Dict(vec![(Value::Text("name".into()), Value::Text("a".into()))]);
    let record = sign(
        KIND_PROFILE,
        vec![Ref::record(RecordId([1; 32]))],
        body,
    );
    assert!(matches!(Profile::parse(&record), Err(Error::Kind(_))));
}

#[test]
fn profile_rejects_missing_name() {
    let record = sign(KIND_PROFILE, vec![], Value::Dict(vec![]));
    assert!(matches!(Profile::parse(&record), Err(Error::Kind(_))));
}

#[test]
fn comment_round_trip_with_parent() {
    let c = Comment {
        subject: RecordId([1; 32]),
        parent: Some(RecordId([2; 32])),
        text: "the second movement is extraordinary".into(),
        media: vec![BlobId([3; 32])],
    };
    let record = sign(KIND_COMMENT, c.refs(), c.to_body());
    let back = Comment::parse(&record).unwrap();
    assert_eq!(back, c);
}

#[test]
fn comment_round_trip_without_parent() {
    let c = Comment {
        subject: RecordId([1; 32]),
        parent: None,
        text: "nice".into(),
        media: vec![],
    };
    let record = sign(KIND_COMMENT, c.refs(), c.to_body());
    let back = Comment::parse(&record).unwrap();
    assert_eq!(back, c);
}

#[test]
fn comment_rejects_empty_refs() {
    let body = Value::Dict(vec![(Value::Text("text".into()), Value::Text("hi".into()))]);
    let record = sign(KIND_COMMENT, vec![], body);
    assert!(matches!(Comment::parse(&record), Err(Error::Kind(_))));
}

#[test]
fn comment_rejects_too_many_refs() {
    let body = Value::Dict(vec![(Value::Text("text".into()), Value::Text("hi".into()))]);
    let record = sign(
        KIND_COMMENT,
        vec![
            Ref::record(RecordId([1; 32])),
            Ref::record(RecordId([2; 32])),
            Ref::record(RecordId([3; 32])),
        ],
        body,
    );
    assert!(matches!(Comment::parse(&record), Err(Error::Kind(_))));
}

#[test]
fn comment_rejects_empty_text() {
    let body = Value::Dict(vec![(Value::Text("text".into()), Value::Text("".into()))]);
    let record = sign(
        KIND_COMMENT,
        vec![Ref::record(RecordId([1; 32]))],
        body,
    );
    assert!(matches!(Comment::parse(&record), Err(Error::Kind(_))));
}

#[test]
fn check_comment_thread_accepts_matching_subject() {
    let subject = RecordId([1; 32]);
    let parent = Comment {
        subject,
        parent: None,
        text: "root".into(),
        media: vec![],
    };
    let reply = Comment {
        subject,
        parent: Some(RecordId([9; 32])),
        text: "reply".into(),
        media: vec![],
    };
    assert!(check_comment_thread(&reply, &parent).is_ok());
}

#[test]
fn check_comment_thread_rejects_parent_subject_mismatch() {
    let parent = Comment {
        subject: RecordId([1; 32]),
        parent: None,
        text: "root".into(),
        media: vec![],
    };
    let reply = Comment {
        subject: RecordId([2; 32]), // different subject than the parent's
        parent: Some(RecordId([9; 32])),
        text: "reply".into(),
        media: vec![],
    };
    assert_eq!(
        check_comment_thread(&reply, &parent),
        Err(Error::Kind("comment/parent-subject-mismatch"))
    );
}

#[test]
fn reaction_round_trip() {
    let r = Reaction {
        target: RecordId([1; 32]),
        reaction: "\u{1F525}".into(),
    };
    let record = sign(KIND_REACTION, r.refs(), r.to_body());
    let back = Reaction::parse(&record).unwrap();
    assert_eq!(back, r);
}

#[test]
fn reaction_rejects_too_long() {
    let body = Value::Dict(vec![(
        Value::Text("reaction".into()),
        Value::Text("x".repeat(33)),
    )]);
    let record = sign(
        KIND_REACTION,
        vec![Ref::record(RecordId([1; 32]))],
        body,
    );
    assert!(matches!(Reaction::parse(&record), Err(Error::Kind(_))));
}

#[test]
fn reaction_rejects_wrong_refs_count() {
    let body = Value::Dict(vec![(
        Value::Text("reaction".into()),
        Value::Text("x".into()),
    )]);
    let record = sign(KIND_REACTION, vec![], body);
    assert!(matches!(Reaction::parse(&record), Err(Error::Kind(_))));
}

#[test]
fn follow_round_trip() {
    let f = Follow {
        followed: IdentityId([7; 32]),
        note: Some("great channel".into()),
    };
    let record = sign(KIND_FOLLOW, f.refs(), f.to_body());
    let back = Follow::parse(&record).unwrap();
    assert_eq!(back, f);
}

#[test]
fn follow_rejects_blob_ref() {
    let record = sign(
        KIND_FOLLOW,
        vec![Ref::blob(BlobId([1; 32]))],
        Value::Dict(vec![]),
    );
    assert!(matches!(Follow::parse(&record), Err(Error::Kind(_))));
}

#[test]
fn playlist_round_trip() {
    let p = Playlist {
        title: "winter mixes".into(),
        description: Some("a few tracks".into()),
        entries: vec![RecordId([1; 32]), RecordId([2; 32])],
    };
    let record = sign(KIND_PLAYLIST, vec![], p.to_body());
    let back = Playlist::parse(&record).unwrap();
    assert_eq!(back, p);
}

#[test]
fn playlist_rejects_empty_entries() {
    let body = Value::Dict(vec![
        (Value::Text("title".into()), Value::Text("t".into())),
        (Value::Text("entries".into()), Value::Array(vec![])),
    ]);
    let record = sign(KIND_PLAYLIST, vec![], body);
    assert!(matches!(Playlist::parse(&record), Err(Error::Kind(_))));
}

#[test]
fn playlist_rejects_nonempty_refs() {
    let body = Value::Dict(vec![
        (Value::Text("title".into()), Value::Text("t".into())),
        (
            Value::Text("entries".into()),
            Value::Array(vec![Value::Bytes(vec![1; 32])]),
        ),
    ]);
    let record = sign(
        KIND_PLAYLIST,
        vec![Ref::record(RecordId([1; 32]))],
        body,
    );
    assert!(matches!(Playlist::parse(&record), Err(Error::Kind(_))));
}

#[test]
fn channel_round_trip() {
    let c = Channel {
        title: "Field Notes".into(),
        description: Some("one river a week".into()),
        avatar: Some(BlobId([1; 32])),
        banner: Some(BlobId([2; 32])),
    };
    let record = sign(KIND_CHANNEL, vec![], c.to_body());
    let back = Channel::parse(&record).unwrap();
    assert_eq!(back, c);
}

#[test]
fn channel_rejects_missing_title() {
    let record = sign(KIND_CHANNEL, vec![], Value::Dict(vec![]));
    assert!(matches!(Channel::parse(&record), Err(Error::Kind(_))));
}

#[test]
fn channel_rejects_nonempty_refs() {
    let body = Value::Dict(vec![(Value::Text("title".into()), Value::Text("t".into()))]);
    let record = sign(
        KIND_CHANNEL,
        vec![Ref::record(RecordId([1; 32]))],
        body,
    );
    assert!(matches!(Channel::parse(&record), Err(Error::Kind(_))));
}
