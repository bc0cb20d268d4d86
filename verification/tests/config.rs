use vidmesh::config::RelayConfig;
use vidmesh::config_json::ConfigError;

#[test]
fn defaults_on_empty_object() {
    let cfg = RelayConfig::from_json("{}").unwrap();
    assert_eq!(cfg.listen_addr, "127.0.0.1:8787");
    assert_eq!(cfg.pow_min_bits, 0);
    assert_eq!(cfg.rate.records_per_minute_per_key, 60);
    assert_eq!(cfg.retention.default_days, 365);
    assert!(!cfg.blob.enabled);
    assert!(cfg.peers.is_empty());
}

#[test]
fn overrides_and_retention_lookup() {
    let cfg = RelayConfig::from_json(
        r#"{
            "name": "relay.example.net",
            "pow_min_bits": 8,
            "retention": { "default_days": 365, "by_kind_days": { "113": 2 } },
            "peers": ["wss://relay2.example.org/sync"]
        }"#,
    )
    .unwrap();
    assert_eq!(cfg.name, "relay.example.net");
    assert_eq!(cfg.pow_min_bits, 8);
    assert_eq!(cfg.retention_days_for_kind(113), 2);
    assert_eq!(cfg.retention_days_for_kind(1), 365);
    assert_eq!(cfg.peers, vec!["wss://relay2.example.org/sync".to_string()]);
}

#[test]
fn rejects_malformed_json() {
    assert!(RelayConfig::from_json("not json").is_err());
}

#[test]
fn malformed_text_is_malformed() {
    assert_eq!(RelayConfig::from_json("{").unwrap_err(), ConfigError::Malformed);
}

#[test]
fn wrong_field_types_are_refused() {
    assert_eq!(
        RelayConfig::from_json(r#"{"pow_min_bits": "8"}"#).unwrap_err(),
        ConfigError::Invalid("pow_min_bits")
    );
    assert_eq!(
        RelayConfig::from_json(r#"{"pow_min_bits": 4294967296}"#).unwrap_err(),
        ConfigError::Invalid("pow_min_bits")
    );
    assert_eq!(
        RelayConfig::from_json(r#"{"retention": {"by_kind_days": {"0113": 2}}}"#).unwrap_err(),
        ConfigError::Invalid("retention.by_kind_days")
    );
    assert!(RelayConfig::from_json("[]").is_err());
}

#[test]
fn unknown_fields_are_ignored_and_sections_default() {
    let cfg = RelayConfig::from_json(r#"{"future": [1, 2.5], "blob": {"enabled": true}}"#).unwrap();
    assert!(cfg.blob.enabled);
    assert_eq!(cfg.blob.dir, "./blobs");
    assert_eq!(cfg.blob.max_bytes, 4294967296);
    assert_eq!(cfg.db_path, "evermesh-relay.sqlite3");
}
