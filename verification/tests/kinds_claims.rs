#![allow(unused_imports)]
use vidmesh::kinds::content::{
    Hint, PaymentPointer, Sponsor, Encryption, Media, Rendition, Caption, Manifest, DERIVATION_SIG_PREFIX,
    derivation_statement, verify_derivation, Delegate, check_delegate_revocation, Supersede, Retract,
    check_retract_target_kind, Mirror, Similarity,
};
use vidmesh::kinds::social::{Profile, Comment, check_comment_thread, Reaction, Follow, Playlist, Channel};
use vidmesh::kinds::claims::{ClaimAuthor, ClaimLicense, ClaimTransfer, ClaimDispute, check_dispute_target_kind};
use vidmesh::kinds::compliance::{Claimant, NoticeTakedown, NoticeCounter, FeedEntry, FeedRemoveEntry, FeedTakedown};
use vidmesh::kinds::infra::{MAX_INLINE_PROOF, AnchorProof, Anchor, Keygrant};
use vidmesh::kinds::live::{LiveSegment, LiveManifest, LiveChat};
use vidmesh::kinds::trust::{EndorseGateway, Receipt, Attest};
use vidmesh::kinds::{
    validate, KIND_ROTATION, KIND_PROFILE, KIND_DELEGATE, KIND_MANIFEST, KIND_SUPERSEDE, KIND_RETRACT,
    KIND_MIRROR, KIND_SIMILARITY, KIND_COMMENT, KIND_REACTION, KIND_FOLLOW, KIND_PLAYLIST, KIND_CHANNEL,
    KIND_CLAIM_AUTHOR, KIND_CLAIM_LICENSE, KIND_CLAIM_TRANSFER, KIND_CLAIM_DISPUTE, KIND_NOTICE_TAKEDOWN,
    KIND_NOTICE_COUNTER, KIND_FEED_TAKEDOWN, KIND_ENDORSE_GATEWAY, KIND_RECEIPT, KIND_ATTEST, KIND_ANCHOR,
    KIND_KEYGRANT, KIND_LIVE_MANIFEST, KIND_LIVE_CHAT,
};
use vidmesh::keys::Keypair;
use vidmesh::record::{Record, RecordBuilder, Ref, SIG_ALG_ED25519};
use vidmesh::ids::{IdentityId, RecordId, BlobId};
use vidmesh::codec::{Value, encode_canonical};
use vidmesh::error::Error;


fn kp() -> Keypair {
    Keypair::from_secret_bytes(&[5u8; 32])
}

fn author() -> IdentityId {
    IdentityId([6; 32])
}

fn sign(kind: u64, refs: Vec<Ref>, body: Value) -> Record {
    RecordBuilder::new(kind)
        .created_at(1)
        .refs(refs)
        .body(body)
        .sign_as(&kp(), author())
        .unwrap()
}

#[test]
fn claim_author_round_trip() {
    let c = ClaimAuthor {
        subject: RecordId([1; 32]),
        statement: Some("recorded by me, 2025-11-02".into()),
        evidence: vec![BlobId([2; 32])],
    };
    let record = sign(KIND_CLAIM_AUTHOR, c.refs(), c.to_body());
    let back = ClaimAuthor::parse(&record).unwrap();
    assert_eq!(back, c);
}

#[test]
fn claim_author_rejects_wrong_refs_count() {
    let record = sign(KIND_CLAIM_AUTHOR, vec![], Value::Dict(vec![]));
    assert!(matches!(ClaimAuthor::parse(&record), Err(Error::Kind(_))));
}

#[test]
fn claim_license_round_trip() {
    let c = ClaimLicense {
        subject: RecordId([1; 32]),
        license: "CC-BY-4.0".into(),
        terms: None,
    };
    let record = sign(KIND_CLAIM_LICENSE, c.refs(), c.to_body());
    let back = ClaimLicense::parse(&record).unwrap();
    assert_eq!(back, c);
}

#[test]
fn claim_license_rejects_empty_license() {
    let body = Value::Dict(vec![(
        Value::Text("license".into()),
        Value::Text("".into()),
    )]);
    let record = sign(
        KIND_CLAIM_LICENSE,
        vec![Ref::record(RecordId([1; 32]))],
        body,
    );
    assert!(matches!(ClaimLicense::parse(&record), Err(Error::Kind(_))));
}

#[test]
fn claim_transfer_round_trip() {
    let c = ClaimTransfer {
        subject: RecordId([1; 32]),
        assignee: IdentityId([9; 32]),
        note: Some("per agreement of 2026-01-15".into()),
    };
    let record = sign(KIND_CLAIM_TRANSFER, c.refs(), c.to_body());
    let back = ClaimTransfer::parse(&record).unwrap();
    assert_eq!(back, c);
}

#[test]
fn claim_transfer_rejects_missing_assignee() {
    let record = sign(
        KIND_CLAIM_TRANSFER,
        vec![Ref::record(RecordId([1; 32]))],
        Value::Dict(vec![]),
    );
    assert!(matches!(ClaimTransfer::parse(&record), Err(Error::Kind(_))));
}

#[test]
fn claim_dispute_round_trip() {
    let c = ClaimDispute {
        target: RecordId([1; 32]),
        statement: "prior publication 2024-06; see archive capture".into(),
        evidence: vec![BlobId([2; 32])],
    };
    let record = sign(KIND_CLAIM_DISPUTE, c.refs(), c.to_body());
    let back = ClaimDispute::parse(&record).unwrap();
    assert_eq!(back, c);
}

#[test]
fn claim_dispute_rejects_empty_statement() {
    let body = Value::Dict(vec![(
        Value::Text("statement".into()),
        Value::Text("".into()),
    )]);
    let record = sign(
        KIND_CLAIM_DISPUTE,
        vec![Ref::record(RecordId([1; 32]))],
        body,
    );
    assert!(matches!(ClaimDispute::parse(&record), Err(Error::Kind(_))));
}

#[test]
fn check_dispute_target_kind_accepts_claims_and_notices() {
    for k in [
        KIND_CLAIM_AUTHOR,
        KIND_CLAIM_LICENSE,
        KIND_CLAIM_TRANSFER,
        KIND_NOTICE_TAKEDOWN,
        KIND_NOTICE_COUNTER,
    ] {
        assert!(check_dispute_target_kind(k).is_ok());
    }
}

#[test]
fn check_dispute_target_kind_rejects_other_kinds() {
    assert!(check_dispute_target_kind(KIND_COMMENT).is_err());
    assert!(check_dispute_target_kind(KIND_MANIFEST).is_err());
}
