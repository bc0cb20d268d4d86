#![allow(unused_imports)]
use vidmesh::kinds::content::{
    Hint, PaymentPointer, Sponsor, Encryption, Media, Rendition, Caption, Manifest, DERIVATION_SIG_PREFIX,
    derivation_statement, verify_derivation, Delegate, check_delegate_revocation, Supersede, Retract,
    check_retract_target_kind, Mirror, Similarity,
};
use vidmesh::kinds::social::{Profile, Comment, check_comment_thread, Reaction, Follow, Playlist, Channel};
use vidmesh::kinds::claims::{ClaimAuthor, ClaimLicense, ClaimTransfer, ClaimDispute, check_dispute_target_kind};
use vidmesh::kinds::compliance::{Claimant, NoticeTakedown, NoticeCounter, FeedEntry, FeedRemoveEntry, FeedTakedown};
use vidmesh::kinds::infra::{MAX_INLINE_PROOF, AnchorProof, Anchor, Keygrant};
use vidmesh::kinds::live::{LiveSegment, LiveManifest, LiveChat};
use vidmesh::kinds::trust::{EndorseGateway, Receipt, Attest};
use vidmesh::kinds::{
    validate, KIND_ROTATION, KIND_PROFILE, KIND_DELEGATE, KIND_MANIFEST, KIND_SUPERSEDE, KIND_RETRACT,
    KIND_MIRROR, KIND_SIMILARITY, KIND_COMMENT, KIND_REACTION, KIND_FOLLOW, KIND_PLAYLIST, KIND_CHANNEL,
    KIND_CLAIM_AUTHOR, KIND_CLAIM_LICENSE, KIND_CLAIM_TRANSFER, KIND_CLAIM_DISPUTE, KIND_NOTICE_TAKEDOWN,
    KIND_NOTICE_COUNTER, KIND_FEED_TAKEDOWN, KIND_ENDORSE_GATEWAY, KIND_RECEIPT, KIND_ATTEST, KIND_ANCHOR,
    KIND_KEYGRANT, KIND_LIVE_MANIFEST, KIND_LIVE_CHAT,
};
use vidmesh::keys::Keypair;
use vidmesh::record::{Record, RecordBuilder, Ref, SIG_ALG_ED25519};
use vidmesh::ids::{IdentityId, RecordId, BlobId};
use vidmesh::codec::{Value, encode_canonical};
use vidmesh::error::Error;


fn kp() -> Keypair {
    Keypair::from_secret_bytes(&[13u8; 32])
}

fn author() -> IdentityId {
    IdentityId([14; 32])
}

fn sign(kind: u64, refs: Vec<Ref>, body: Value) -> Record {
    RecordBuilder::new(kind)
        .created_at(1)
        .refs(refs)
        .body(body)
        .sign_as(&kp(), author())
        .unwrap()
}

#[test]
fn anchor_round_trip_inline_proof() {
    let a = Anchor {
        root: [0x31; 32],
        count: 18_211,
        system: "opentimestamps".into(),
        proof: AnchorProof::Inline(vec![0x00, 0x63, 0xff]),
    };
    let record = sign(KIND_ANCHOR, vec![], a.to_body());
    let back = Anchor::parse(&record).unwrap();
    assert_eq!(back, a);
}

#[test]
fn anchor_round_trip_blob_proof() {
    let a = Anchor {
        root: [0x31; 32],
        count: 1,
        system: "opentimestamps".into(),
        proof: AnchorProof::Blob(BlobId([0x77; 32])),
    };
    let record = sign(KIND_ANCHOR, vec![], a.to_body());
    let back = Anchor::parse(&record).unwrap();
    assert_eq!(back, a);
}

#[test]
fn anchor_rejects_oversized_inline_proof() {
    let body = Value::Dict(vec![
        (Value::Text("root".into()), Value::Bytes(vec![1; 32])),
        (Value::Text("count".into()), Value::Uint(1)),
        (
            Value::Text("system".into()),
            Value::Text("opentimestamps".into()),
        ),
        (Value::Text("proof".into()), Value::Bytes(vec![0u8; 4097])),
    ]);
    let record = sign(KIND_ANCHOR, vec![], body);
    assert!(matches!(Anchor::parse(&record), Err(Error::Kind(_))));
}

#[test]
fn anchor_accepts_max_inline_proof_size() {
    let body = Value::Dict(vec![
        (Value::Text("root".into()), Value::Bytes(vec![1; 32])),
        (Value::Text("count".into()), Value::Uint(1)),
        (
            Value::Text("system".into()),
            Value::Text("opentimestamps".into()),
        ),
        (Value::Text("proof".into()), Value::Bytes(vec![0u8; 4096])),
    ]);
    let record = sign(KIND_ANCHOR, vec![], body);
    assert!(Anchor::parse(&record).is_ok());
}

#[test]
fn anchor_rejects_nonempty_refs() {
    let a = Anchor {
        root: [1; 32],
        count: 1,
        system: "opentimestamps".into(),
        proof: AnchorProof::Inline(vec![1, 2, 3]),
    };
    let record = sign(
        KIND_ANCHOR,
        vec![Ref::record(RecordId([1; 32]))],
        a.to_body(),
    );
    assert!(matches!(Anchor::parse(&record), Err(Error::Kind(_))));
}

#[test]
fn keygrant_round_trip() {
    let k = Keygrant {
        subject: RecordId([1; 32]),
        recipient: IdentityId([2; 32]),
        wrap_alg: 1,
        wrapped_key: vec![0x8e, 0x44],
        note: None,
    };
    let record = sign(KIND_KEYGRANT, k.refs(), k.to_body());
    let back = Keygrant::parse(&record).unwrap();
    assert_eq!(back, k);
}

#[test]
fn keygrant_rejects_wrong_refs_count() {
    let body = Value::Dict(vec![
        (Value::Text("recipient".into()), Value::Bytes(vec![2; 32])),
        (Value::Text("wrap_alg".into()), Value::Uint(1)),
        (Value::Text("wrapped_key".into()), Value::Bytes(vec![1, 2])),
    ]);
    let record = sign(KIND_KEYGRANT, vec![], body);
    assert!(matches!(Keygrant::parse(&record), Err(Error::Kind(_))));
}

#[test]
fn keygrant_rejects_missing_wrap_alg() {
    let body = Value::Dict(vec![
        (Value::Text("recipient".into()), Value::Bytes(vec![2; 32])),
        (Value::Text("wrapped_key".into()), Value::Bytes(vec![1, 2])),
    ]);
    let record = sign(
        KIND_KEYGRANT,
        vec![Ref::record(RecordId([1; 32]))],
        body,
    );
    assert!(matches!(Keygrant::parse(&record), Err(Error::Kind(_))));
}
