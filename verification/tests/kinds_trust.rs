#![allow(unused_imports)]
use vidmesh::kinds::content::{
    Hint, PaymentPointer, Sponsor, Encryption, Media, Rendition, Caption, Manifest, DERIVATION_SIG_PREFIX,
    derivation_statement, verify_derivation, Delegate, check_delegate_revocation, Supersede, Retract,
    check_retract_target_kind, Mirror, Similarity,
};
use vidmesh::kinds::social::{Profile, Comment, check_comment_thread, Reaction, Follow, Playlist, Channel};
use vidmesh::kinds::claims::{ClaimAuthor, ClaimLicense, ClaimTransfer, ClaimDispute, check_dispute_target_kind};
use vidmesh::kinds::compliance::{Claimant, NoticeTakedown, NoticeCounter, FeedEntry, FeedRemoveEntry, FeedTakedown};
use vidmesh::kinds::infra::{MAX_INLINE_PROOF, AnchorProof, Anchor, Keygrant};
use vidmesh::kinds::live::{LiveSegment, LiveManifest, LiveChat};
use vidmesh::kinds::trust::{EndorseGateway, Receipt, Attest};
use vidmesh::kinds::{
    validate, KIND_ROTATION, KIND_PROFILE, KIND_DELEGATE, KIND_MANIFEST, KIND_SUPERSEDE, KIND_RETRACT,
    KIND_MIRROR, KIND_SIMILARITY, KIND_COMMENT, KIND_REACTION, KIND_FOLLOW, KIND_PLAYLIST, KIND_CHANNEL,
    KIND_CLAIM_AUTHOR, KIND_CLAIM_LICENSE, KIND_CLAIM_TRANSFER, KIND_CLAIM_DISPUTE, KIND_NOTICE_TAKEDOWN,
    KIND_NOTICE_COUNTER, KIND_FEED_TAKEDOWN, KIND_ENDORSE_GATEWAY, KIND_RECEIPT, KIND_ATTEST, KIND_ANCHOR,
    KIND_KEYGRANT, KIND_LIVE_MANIFEST, KIND_LIVE_CHAT,
};
use vidmesh::keys::Keypair;
use vidmesh::record::{Record, RecordBuilder, Ref, SIG_ALG_ED25519};
use vidmesh::ids::{IdentityId, RecordId, BlobId};
use vidmesh::codec::{Value, encode_canonical};
use vidmesh::error::Error;


fn kp() -> Keypair {
    Keypair::from_secret_bytes(&[11u8; 32])
}

fn author() -> IdentityId {
    IdentityId([12; 32])
}

fn sign(kind: u64, refs: Vec<Ref>, body: Value) -> Record {
    RecordBuilder::new(kind)
        .created_at(1)
        .refs(refs)
        .body(body)
        .sign_as(&kp(), author())
        .unwrap()
}

#[test]
fn endorse_gateway_round_trip() {
    let e = EndorseGateway {
        url: "https://watch.example.net".into(),
        note: None,
    };
    let record = sign(KIND_ENDORSE_GATEWAY, vec![], e.to_body());
    let back = EndorseGateway::parse(&record).unwrap();
    assert_eq!(back, e);
}

#[test]
fn endorse_gateway_rejects_non_https() {
    let body = Value::Dict(vec![(
        Value::Text("url".into()),
        Value::Text("http://watch.example.net".into()),
    )]);
    let record = sign(KIND_ENDORSE_GATEWAY, vec![], body);
    assert!(matches!(
        EndorseGateway::parse(&record),
        Err(Error::Kind(_))
    ));
}

#[test]
fn endorse_gateway_rejects_nonempty_refs() {
    let body = Value::Dict(vec![(
        Value::Text("url".into()),
        Value::Text("https://a.example".into()),
    )]);
    let record = sign(
        KIND_ENDORSE_GATEWAY,
        vec![Ref::record(RecordId([1; 32]))],
        body,
    );
    assert!(matches!(
        EndorseGateway::parse(&record),
        Err(Error::Kind(_))
    ));
}

#[test]
fn receipt_round_trip() {
    let r = Receipt {
        subject: RecordId([1; 32]),
        amount: 21_000,
        currency: "sat".into(),
        rail: 1,
        payee: IdentityId([2; 32]),
        proof: None,
        message: Some("for the river week 12".into()),
    };
    let record = sign(KIND_RECEIPT, r.refs(), r.to_body());
    let back = Receipt::parse(&record).unwrap();
    assert_eq!(back, r);
}

#[test]
fn receipt_rejects_zero_amount() {
    let body = Value::Dict(vec![
        (Value::Text("amount".into()), Value::Uint(0)),
        (Value::Text("currency".into()), Value::Text("sat".into())),
        (Value::Text("rail".into()), Value::Uint(1)),
        (Value::Text("payee".into()), Value::Bytes(vec![2; 32])),
    ]);
    let record = sign(
        KIND_RECEIPT,
        vec![Ref::record(RecordId([1; 32]))],
        body,
    );
    assert!(matches!(Receipt::parse(&record), Err(Error::Kind(_))));
}

#[test]
fn receipt_rejects_wrong_refs_count() {
    let body = Value::Dict(vec![
        (Value::Text("amount".into()), Value::Uint(1)),
        (Value::Text("currency".into()), Value::Text("sat".into())),
        (Value::Text("rail".into()), Value::Uint(1)),
        (Value::Text("payee".into()), Value::Bytes(vec![2; 32])),
    ]);
    let record = sign(KIND_RECEIPT, vec![], body);
    assert!(matches!(Receipt::parse(&record), Err(Error::Kind(_))));
}

#[test]
fn attest_round_trip() {
    let a = Attest {
        subject: RecordId([1; 32]),
        statement: "100000 verified views on watch.example.net, 2026-06".into(),
        // Canonical key order (5-byte "value" sorts before 6-byte
        // "metric"): a signed record's nested maps are always canonical
        // once round-tripped, so the expected value must be too.
        data: Some(Value::Dict(vec![
            (Value::Text("value".into()), Value::Uint(100_000)),
            (Value::Text("metric".into()), Value::Text("views".into())),
        ])),
    };
    let record = sign(KIND_ATTEST, a.refs(), a.to_body());
    let back = Attest::parse(&record).unwrap();
    assert_eq!(back, a);
}

#[test]
fn attest_rejects_wrong_refs_count() {
    let body = Value::Dict(vec![(
        Value::Text("statement".into()),
        Value::Text("s".into()),
    )]);
    let record = sign(KIND_ATTEST, vec![], body);
    assert!(matches!(Attest::parse(&record), Err(Error::Kind(_))));
}

#[test]
fn attest_rejects_non_map_data() {
    let body = Value::Dict(vec![
        (Value::Text("statement".into()), Value::Text("s".into())),
        (Value::Text("data".into()), Value::Uint(1)),
    ]);
    let record = sign(
        KIND_ATTEST,
        vec![Ref::record(RecordId([1; 32]))],
        body,
    );
    assert!(matches!(Attest::parse(&record), Err(Error::Kind(_))));
}
