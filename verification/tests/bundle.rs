use vidmesh::bundle::{item_len, Bundle, ImportResult, Importer, PART_SPLIT_THRESHOLD};
use vidmesh::blob::hash_blob;
use vidmesh::codec::{self, Value};
use vidmesh::error::Error;
use vidmesh::identity::Identity;
use vidmesh::ids::BlobId;
use vidmesh::keys::Keypair;
use vidmesh::record::{Record, RecordBuilder, Ref};


fn sample_records() -> Vec<Record> {
    let kp = Keypair::from_secret_bytes(&[9u8; 32]);
    let (id, genesis) = Identity::genesis(&kp, &[], 604_800, 100).unwrap();
    let comment = RecordBuilder::new(32)
        .created_at(200)
        .add_ref(Ref::record(genesis.id()))
        .body(Value::Dict(vec![(
            Value::Text("text".into()),
            Value::Text("hello".into()),
        )]))
        .sign_as(&kp, id)
        .unwrap();
    vec![genesis, comment]
}

fn roundtrip(records: &[Record], blobs: &[(BlobId, Vec<u8>)]) -> ImportResult {
    let mut out = Vec::new();
    Bundle::export(records, blobs, &mut out).unwrap();
    Bundle::import(&out[..]).unwrap()
}

#[test]
fn export_import_round_trip() {
    let records = sample_records();
    let content = vec![7u8; 1000];
    let blobs = vec![(hash_blob(&content), content)];
    let result = roundtrip(&records, &blobs);
    assert_eq!(result.records, records);
    assert_eq!(result.blobs, blobs);
    assert!(result.skipped.is_empty(), "{:?}", result.skipped);
    assert!(!result.truncated);
}

#[test]
fn large_blob_parts_round_trip() {
    let records = sample_records();
    let content: Vec<u8> = (0..(PART_SPLIT_THRESHOLD + 5))
        .map(|i| (i % 251) as u8)
        .collect();
    let blobs = vec![(hash_blob(&content), content)];
    let result = roundtrip(&records, &blobs);
    assert_eq!(result.blobs.len(), 1);
    assert_eq!(result.blobs[0], blobs[0]);
    assert!(result.skipped.is_empty(), "{:?}", result.skipped);
}

#[test]
fn truncated_bundle_salvages_prefix() {
    let records = sample_records();
    let mut out = Vec::new();
    Bundle::export(&records, &[], &mut out).unwrap();
    out.truncate(out.len() - 3); // cut into the end item
    let result = Bundle::import(&out[..]).unwrap();
    assert_eq!(result.records, records);
    assert!(result.truncated);
}

#[test]
fn corrupted_blob_is_skipped_not_fatal() {
    let records = sample_records();
    let content = vec![1u8; 100];
    let good = vec![2u8; 100];
    let mut blobs = vec![
        (hash_blob(&content), content),
        (hash_blob(&good), good.clone()),
    ];
    blobs[0].1[0] ^= 0xff; // corrupt after hashing
    let mut out = Vec::new();
    // export re-verifies, so build the corrupt bundle by hand:
    let err = Bundle::export(&records, &blobs, &mut Vec::new()).unwrap_err();
    assert!(matches!(err, Error::Bundle(_)));
    // hand-craft: valid export of good blob, then splice a corrupt item
    out.clear();
    Bundle::export(&records, &[(hash_blob(&good), good.clone())], &mut out).unwrap();
    // remove end marker, add corrupt b item + fresh end
    let end_item = codec::encode_canonical(&Value::Array(vec![
        Value::Text("end".into()),
        Value::Uint(records.len() as u64),
        Value::Uint(1),
    ]))
    .unwrap();
    out.truncate(out.len() - end_item.len());
    let corrupt = codec::encode_canonical(&Value::Array(vec![
        Value::Text("b".into()),
        Value::Bytes([0xee; 32].to_vec()),
        Value::Bytes(vec![3u8; 10]),
    ]))
    .unwrap();
    out.extend_from_slice(&corrupt);
    out.extend_from_slice(&end_item);
    let result = Bundle::import(&out[..]).unwrap();
    assert_eq!(result.blobs.len(), 1);
    assert_eq!(result.skipped.len(), 1);
    assert!(!result.truncated);
}

#[test]
fn import_is_idempotent_under_duplication() {
    let records = sample_records();
    let content = vec![7u8; 64];
    let blobs = vec![(hash_blob(&content), content)];
    let mut out = Vec::new();
    // Two copies of everything: records duplicated in one bundle.
    let doubled: Vec<Record> = records.iter().chain(records.iter()).cloned().collect();
    Bundle::export(&doubled, &blobs, &mut out).unwrap();
    let result = Bundle::import(&out[..]).unwrap();
    assert_eq!(result.records.len(), records.len());
    assert_eq!(result.blobs.len(), 1);
}

#[test]
fn bad_magic_rejected() {
    let err = Bundle::import(&b"NOPE\x01rest"[..]).unwrap_err();
    assert!(matches!(err, Error::Bundle(_)));
}

#[test]
fn malformed_end_leaves_bundle_truncated() {
    let bytes: [u8; 16] = [
        0x45, 0x56, 0x4d, 0x53, 0x01, 0x82, 0x63, 0x68, 0x64, 0x72, 0xa0, 0x81, 0x63, 0x65, 0x6e, 0x64,
    ];
    let res = Bundle::import(&bytes[..]).unwrap();
    assert!(res.truncated);
    assert!(res.records.is_empty());
    assert!(res.blobs.is_empty());
    assert!(!res.skipped.is_empty());
}

#[test]
fn whole_chunk_parted_blob_followed_by_parted_blob() {
    let a: Vec<u8> = (0..(17usize << 20)).map(|i| (i % 253) as u8).collect();
    let b: Vec<u8> = (0..((17usize << 20) + 3)).map(|i| (i % 241) as u8).collect();
    let blobs = vec![(hash_blob(&a), a), (hash_blob(&b), b)];
    let result = roundtrip(&[], &blobs);
    // The first blob is still pending when the second one's first part
    // comes: that part is reported and dropped, the first blob completed.
    assert_eq!(result.blobs, blobs[..1].to_vec());
    assert_eq!(result.skipped[0], "non-contiguous blob part; dropping pending blob");
    assert!(result.skipped.iter().any(|s| s == "blob part does not start at index 0"));
    assert!(!result.truncated);
}

#[test]
fn missing_header_is_reported_and_end_still_counts() {
    let bytes: [u8; 12] = [0x45, 0x56, 0x4d, 0x53, 0x01, 0x83, 0x63, 0x65, 0x6e, 0x64, 0x00, 0x00];
    let mut skipped: Vec<String> = Vec::new();
    let (records, blobs, truncated) = vidmesh::bundle::import_streaming(&bytes[..], &mut skipped).unwrap();
    assert!(!truncated);
    assert!(records.is_empty());
    assert!(blobs.is_empty());
    assert_eq!(skipped, vec!["first item is not hdr".to_string()]);
}

#[test]
fn item_by_item_import_matches_whole_import() {
    let records = sample_records();
    let content = vec![3u8; 5000];
    let blobs = vec![(hash_blob(&content), content)];
    let mut out = Vec::new();
    Bundle::export(&records, &blobs, &mut out).unwrap();
    let mut imp = Importer::begin(&out[..5]).unwrap();
    let mut rest = &out[5..];
    while !rest.is_empty() {
        let n = item_len(rest).unwrap();
        imp.item(&rest[..n]);
        rest = &rest[n..];
    }
    let r = imp.finish();
    assert_eq!(r.records, records);
    assert_eq!(r.blobs, blobs);
    assert!(r.skipped.is_empty());
    assert!(!r.truncated);
    assert!(item_len(&out[5..7]).is_none());
}
