use vidmesh::relay::current_unix_time;

#[test]
fn current_unix_time_is_positive_and_recent() {
    // A loose sanity check: this file was written after 2024-01-01.
    assert!(current_unix_time() > 1_700_000_000);
}
