use vidmesh::codec::{Value, encode_canonical};
use vidmesh::error::Error;
use vidmesh::ids::IdentityId;
use vidmesh::keys::Keypair;
use vidmesh::record::{Record, RecordBuilder, Ref};

fn test_keypair() -> Keypair {
    Keypair::from_secret_bytes(&[7u8; 32])
}

fn simple_record() -> Record {
    RecordBuilder::new(32)
        .created_at(1_752_710_400)
        .add_ref(Ref {
            ref_type: 0,
            hash: [0xaa; 32],
        })
        .body(Value::Dict(vec![(
            Value::Text("text".into()),
            Value::Text("hello".into()),
        )]))
        .sign_as(&test_keypair(), IdentityId([1; 32]))
        .unwrap()
}

/// The record with envelope entry `key` replaced by `value` (the
/// record's fields are private; the envelope is how a tampered copy is
/// made from outside).
fn with_entry(r: &Record, key: u64, value: Value) -> Record {
    let mut v = r.to_value(true);
    if let Value::Dict(ref mut es) = v {
        for e in es.iter_mut() {
            if e.0 == Value::Uint(key) {
                e.1 = value.clone();
            }
        }
    }
    Record::from_cbor(&encode_canonical(&v).unwrap()).unwrap()
}

#[test]
fn sign_verify_round_trip() {
    let r = simple_record();
    r.verify().unwrap();
    let bytes = r.to_canonical_cbor();
    let back = Record::from_cbor(&bytes).unwrap();
    back.verify().unwrap();
    assert_eq!(back, r);
    assert_eq!(back.id(), r.id());
}

#[test]
fn id_excludes_signature() {
    let r = simple_record();
    let tampered = with_entry(&r, 7, Value::Bytes(vec![0; 64]));
    assert_eq!(tampered.id(), r.id());
    assert!(tampered.verify().is_err());
}

#[test]
fn tampered_body_fails() {
    let r = simple_record();
    let tampered = with_entry(
        &r,
        5,
        Value::Dict(vec![(Value::Text("text".into()), Value::Text("evil".into()))]),
    );
    assert_ne!(tampered.id(), r.id());
    assert_eq!(tampered.verify(), Err(Error::Signature));
}

#[test]
fn unknown_sig_alg_rejected() {
    let r = simple_record();
    let bad = with_entry(&r, 6, Value::Uint(99));
    assert_eq!(bad.verify(), Err(Error::UnknownAlgorithm(99)));
}

#[test]
fn envelope_shape_enforced() {
    // 6-entry map (missing sig) must be rejected.
    let r = simple_record();
    let bytes = encode_canonical(&r.to_value(false)).unwrap();
    assert!(matches!(Record::from_cbor(&bytes), Err(Error::Envelope(_))));
}

#[test]
fn non_map_body_rejected() {
    let err = RecordBuilder::new(1)
        .body(Value::Uint(3))
        .sign_as(&test_keypair(), IdentityId::zero())
        .unwrap_err();
    assert!(matches!(err, Error::Envelope(_)));
}

#[test]
fn refs_validation() {
    let bad = Value::Array(vec![Value::Uint(2), Value::Bytes(vec![0; 32])]);
    assert!(Ref::from_value(&bad).is_err());
    let short = Value::Array(vec![Value::Uint(0), Value::Bytes(vec![0; 31])]);
    assert!(Ref::from_value(&short).is_err());
}

#[test]
fn json_round_trip() {
    let r = simple_record();
    let json = r.to_json();
    let back = Record::from_json(&json).unwrap();
    assert_eq!(back, r);
    back.verify().unwrap();
}

#[test]
fn negative_created_at_supported() {
    let r = RecordBuilder::new(1)
        .created_at(-86400)
        .sign_as(&test_keypair(), IdentityId::zero())
        .unwrap();
    let back = Record::from_cbor(&r.to_canonical_cbor()).unwrap();
    assert_eq!(back.created_at(), -86400);
    back.verify().unwrap();
}
