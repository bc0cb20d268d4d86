use vidmesh::ids::BlobId;
use vidmesh::relay::{blob_path, parse_blob_id, parse_range};

#[test]
fn blob_path_is_content_addressed_and_sharded() {
    let id = BlobId([0xABu8; 32]);
    let path = blob_path("blobs", &id);
    let hex = id.to_hex();
    assert_eq!(
        path.parts().iter().collect::<std::path::PathBuf>(),
        std::path::PathBuf::from("blobs")
            .join(&hex[0..2])
            .join(&hex[2..4])
            .join(&hex)
    );
}

#[test]
fn blob_path_components() {
    let id = BlobId([0x0Fu8; 32]);
    let path = blob_path("/srv/blobs", &id);
    let parts: Vec<&str> = path.parts().iter().map(|s| s.as_str()).collect();
    assert_eq!(parts, vec!["/srv/blobs", "0f", "0f", id.to_hex().as_str()]);
    assert!(path.ends_with(&id.to_hex()));
}

#[test]
fn parse_blob_id_accepts_hex_and_uri_forms() {
    let id = BlobId([0x11u8; 32]);
    let hex = id.to_hex();
    assert_eq!(parse_blob_id(&hex), Some(id));
    assert_eq!(parse_blob_id(&format!("b3-256:{hex}")), Some(id));
    assert_eq!(parse_blob_id("not-a-hash"), None);
}

#[test]
fn parse_range_basic_and_edge_cases() {
    assert_eq!(parse_range("bytes=0-99", 1000), Some((0, 99)));
    assert_eq!(parse_range("bytes=100-", 1000), Some((100, 999)));
    assert_eq!(parse_range("bytes=-100", 1000), Some((900, 999)));
    assert_eq!(parse_range("bytes=1000-2000", 1000), None);
    assert_eq!(parse_range("bytes=0-99,200-299", 1000), None);
    assert_eq!(parse_range("nonsense", 1000), None);
    assert_eq!(parse_range("bytes=50-10", 1000), None);
    assert_eq!(parse_range("bytes=900-10000", 1000), Some((900, 999)));
}
