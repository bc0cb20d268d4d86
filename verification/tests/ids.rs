use vidmesh::ids::{RecordId, BlobId};

#[test]
fn hex_round_trip() {
    let id = RecordId([0xab; 32]);
    assert_eq!(id.to_hex().len(), 64);
    assert_eq!(RecordId::from_hex(&id.to_hex()), Some(id));
}

#[test]
fn blob_uri_round_trip() {
    let id = BlobId([7; 32]);
    assert_eq!(BlobId::from_uri(&id.to_uri()), Some(id));
    assert!(BlobId::from_uri("b2-256:00").is_none());
}

#[test]
fn from_hex_rejects_bad_input() {
    assert!(RecordId::from_hex("zz").is_none());
    assert!(RecordId::from_hex(&"a".repeat(63)).is_none());
    assert!(RecordId::from_hex(&"g".repeat(64)).is_none());
}
