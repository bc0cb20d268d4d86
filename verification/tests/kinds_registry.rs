use vidmesh::kinds::{
    kind_name, kind_id, validate, KIND_ROTATION, KIND_PROFILE, KIND_DELEGATE, KIND_MANIFEST, KIND_SUPERSEDE,
    KIND_RETRACT, KIND_MIRROR, KIND_SIMILARITY, KIND_COMMENT, KIND_REACTION, KIND_FOLLOW, KIND_PLAYLIST,
    KIND_CHANNEL, KIND_CLAIM_AUTHOR, KIND_CLAIM_LICENSE, KIND_CLAIM_TRANSFER, KIND_CLAIM_DISPUTE,
    KIND_NOTICE_TAKEDOWN, KIND_NOTICE_COUNTER, KIND_FEED_TAKEDOWN, KIND_ENDORSE_GATEWAY, KIND_RECEIPT,
    KIND_ATTEST, KIND_ANCHOR, KIND_KEYGRANT, KIND_LIVE_MANIFEST, KIND_LIVE_CHAT,
};
use vidmesh::keys::Keypair;
use vidmesh::record::{RecordBuilder, Ref, SIG_ALG_ED25519};
use vidmesh::ids::{IdentityId, RecordId};
use vidmesh::codec::Value;
use vidmesh::error::Error;
use vidmesh::identity::Identity;


fn kp() -> Keypair {
    Keypair::from_secret_bytes(&[42u8; 32])
}

#[test]
fn kind_name_and_id_cover_all_27_kinds() {
    let ids = [
        KIND_ROTATION,
        KIND_PROFILE,
        KIND_DELEGATE,
        KIND_MANIFEST,
        KIND_SUPERSEDE,
        KIND_RETRACT,
        KIND_MIRROR,
        KIND_SIMILARITY,
        KIND_COMMENT,
        KIND_REACTION,
        KIND_FOLLOW,
        KIND_PLAYLIST,
        KIND_CHANNEL,
        KIND_CLAIM_AUTHOR,
        KIND_CLAIM_LICENSE,
        KIND_CLAIM_TRANSFER,
        KIND_CLAIM_DISPUTE,
        KIND_NOTICE_TAKEDOWN,
        KIND_NOTICE_COUNTER,
        KIND_FEED_TAKEDOWN,
        KIND_ENDORSE_GATEWAY,
        KIND_RECEIPT,
        KIND_ATTEST,
        KIND_ANCHOR,
        KIND_KEYGRANT,
        KIND_LIVE_MANIFEST,
        KIND_LIVE_CHAT,
    ];
    assert_eq!(ids.len(), 27);
    for id in ids {
        let name = kind_name(id).unwrap_or_else(|| panic!("no name for kind {id}"));
        assert_eq!(kind_id(name), Some(id), "round trip for {name}");
    }
}

#[test]
fn unknown_kind_name_and_id_are_none() {
    assert_eq!(kind_name(9999), None);
    assert_eq!(kind_id("no-such-kind"), None);
    assert_eq!(kind_name(0), None); // kind 0 is reserved (spec 003 §1)
}

#[test]
fn validate_unknown_kind_is_ok() {
    let record = RecordBuilder::new(9999)
        .created_at(1)
        .sign_as(&kp(), IdentityId::zero())
        .unwrap();
    assert!(validate(&record).is_ok());
}

#[test]
fn validate_rotation_genesis_and_non_genesis_refs() {
    let (id, genesis) = Identity::genesis(&kp(), &[], 604_800, 1).unwrap();
    assert!(validate(&genesis).is_ok());

    let rot = Identity::rotate(
        id,
        genesis.id(),
        &kp().public_key_bytes(),
        SIG_ALG_ED25519,
        &[],
        604_800,
        2,
        &kp(),
    )
    .unwrap();
    assert!(validate(&rot).is_ok());
}

#[test]
fn validate_rotation_rejects_nonempty_genesis_refs() {
    let bad = RecordBuilder::new(KIND_ROTATION)
        .created_at(1)
        .add_ref(Ref::record(RecordId([9; 32])))
        .body(Value::Dict(vec![
            (
                Value::Text("key".into()),
                Value::Bytes(kp().public_key_bytes().to_vec()),
            ),
            (Value::Text("key_alg".into()), Value::Uint(1)),
            (Value::Text("recovery".into()), Value::Array(vec![])),
            (Value::Text("contest_window".into()), Value::Uint(0)),
        ]))
        .sign_as(&kp(), IdentityId::zero())
        .unwrap();
    assert!(matches!(validate(&bad), Err(Error::Kind(_))));
}

#[test]
fn validate_rotation_rejects_missing_refs_when_non_genesis() {
    let bad = RecordBuilder::new(KIND_ROTATION)
        .created_at(1)
        .body(Value::Dict(vec![
            (
                Value::Text("key".into()),
                Value::Bytes(kp().public_key_bytes().to_vec()),
            ),
            (Value::Text("key_alg".into()), Value::Uint(1)),
            (Value::Text("recovery".into()), Value::Array(vec![])),
            (Value::Text("contest_window".into()), Value::Uint(0)),
        ]))
        .sign_as(&kp(), IdentityId([1; 32]))
        .unwrap();
    assert!(matches!(validate(&bad), Err(Error::Kind(_))));
}

#[test]
fn scaffold_compiles() {
    // The library builds and links into a test binary.
}
