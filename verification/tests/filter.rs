use vidmesh::filter::{Filter, FilterError};
use vidmesh::frames::Value;

#[test]
fn empty_filter_matches_everything() {
    let f = Filter::default();
    assert!(f.matches(1, &[0u8; 32], &[0u8; 32], &[], 1));
}

#[test]
fn kinds_filters() {
    let f = Filter {
        kinds: Some(vec![2, 3]),
        ..Default::default()
    };
    assert!(f.matches(2, &[0; 32], &[0; 32], &[], 1));
    assert!(!f.matches(4, &[0; 32], &[0; 32], &[], 1));
}

#[test]
fn authors_filters() {
    let a = [1u8; 32];
    let f = Filter {
        authors: Some(vec![a]),
        ..Default::default()
    };
    assert!(f.matches(1, &a, &[0; 32], &[], 1));
    assert!(!f.matches(1, &[2u8; 32], &[0; 32], &[], 1));
}

#[test]
fn ids_filters() {
    let id = [9u8; 32];
    let f = Filter {
        ids: Some(vec![id]),
        ..Default::default()
    };
    assert!(f.matches(1, &[0; 32], &id, &[], 1));
    assert!(!f.matches(1, &[0; 32], &[8u8; 32], &[], 1));
}

#[test]
fn refs_filters_any_overlap() {
    let target = [5u8; 32];
    let f = Filter {
        refs: Some(vec![target]),
        ..Default::default()
    };
    assert!(f.matches(1, &[0; 32], &[0; 32], &[[1u8; 32], target], 1));
    assert!(!f.matches(1, &[0; 32], &[0; 32], &[[1u8; 32]], 1));
}

#[test]
fn since_is_strictly_greater() {
    let f = Filter {
        since: Some(10),
        ..Default::default()
    };
    assert!(!f.matches(1, &[0; 32], &[0; 32], &[], 10));
    assert!(f.matches(1, &[0; 32], &[0; 32], &[], 11));
}

#[test]
fn value_round_trip() {
    let f = Filter {
        kinds: Some(vec![1, 2]),
        authors: Some(vec![[3u8; 32]]),
        refs: Some(vec![[4u8; 32]]),
        ids: Some(vec![[5u8; 32]]),
        since: Some(6),
        limit: Some(7),
    };
    let value = f.to_value();
    let parsed = Filter::from_value(&value).unwrap();
    assert_eq!(parsed, f);
}

#[test]
fn unknown_keys_are_ignored() {
    let value = Value::Dict(vec![(Value::Text("mystery".to_string()), Value::Uint(1))]);
    let f = Filter::from_value(&value).unwrap();
    assert_eq!(f, Filter::default());
}

#[test]
fn wrong_type_is_rejected_not_panicked() {
    let value = Value::Dict(vec![(
        Value::Text("since".to_string()),
        Value::Text("not a uint".to_string()),
    )]);
    assert_eq!(Filter::from_value(&value), Err(FilterError::BadSince));
}

#[test]
fn non_map_is_rejected() {
    assert_eq!(
        Filter::from_value(&Value::Array(vec![])),
        Err(FilterError::NotAMap)
    );
}
