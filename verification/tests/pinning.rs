use vidmesh::pinning::{PinStore, Budget, PinReason};
use vidmesh::ids::BlobId;

#[test]
fn open_never_touches_disk_and_never_panics() {
    let mut store = PinStore::open("/nonexistent/path/that/does/not/exist");
    assert!(store.db_path().ends_with(PinStore::DB_FILE_NAME));
    assert_eq!(store.pinned_count(), 0);
    assert!(store.list_pins().is_empty());
    assert_eq!(store.budget(), Budget::default());

    // Mutating scaffold methods must not panic even though they are
    // no-ops.
    store.pin(BlobId([0u8; 32]), None, PinReason::Explicit);
    assert!(!store.unpin(&BlobId([0u8; 32])));
    assert!(!store.is_pinned(&BlobId([0u8; 32])));
    store.set_budget(Budget {
        disk_gb: 10,
        bandwidth_mbps: 5,
    });
}

#[test]
fn db_path_is_data_dir_then_file() {
    let store = PinStore::open("/var/lib/node");
    let parts: Vec<&str> = store.db_path().parts().iter().map(|s| s.as_str()).collect();
    assert_eq!(parts, vec!["/var/lib/node", "pins.sqlite3"]);
}
