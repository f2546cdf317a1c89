use flatkv::errs::StoreError;
use flatkv::json::{sequence_to_json, SerializableVector};
use flatkv::registry::CollectionRegistry;

#[test]
fn json_empty_array() {
    let v: Vec<String> = Vec::new();
    assert_eq!(sequence_to_json(&v), "[]");
}

#[test]
fn json_plain_strings() {
    let v = vec!["a".to_string(), "b".to_string(), "c".to_string()];
    assert_eq!(sequence_to_json(&v), "[\"a\",\"b\",\"c\"]");
}

#[test]
fn json_escapes_quotes_and_backslashes() {
    let v = vec!["a\"b".to_string(), "c\\d".to_string(), "e\nf".to_string()];
    assert_eq!(sequence_to_json(&v), "[\"a\\\"b\",\"c\\\\d\",\"e\\u000af\"]");
}

#[test]
fn json_matches_reference_serializer() {
    let v = vec![
        "insert 1".to_string(),
        "0xABCD".to_string(),
        "héllo wörld".to_string(),
    ];
    let reference = serde_json::to_string(&v).unwrap();
    assert_eq!(sequence_to_json(&v), reference);
}

#[test]
fn serializable_vector_renders() {
    let sv = SerializableVector(vec!["insert 1".to_string(), "insert 2".to_string()]);
    assert_eq!(sv.to_json(), "[\"insert 1\",\"insert 2\"]");
}

#[test]
fn registry_accepts_free_prefixes() {
    let mut reg = CollectionRegistry::new();
    assert_eq!(reg.register(vec![1, 2]), Ok(()));
    assert_eq!(reg.register(vec![1, 3]), Ok(()));
    assert_eq!(reg.register(vec![2]), Ok(()));
}

#[test]
fn registry_rejects_prefix_collisions() {
    let mut reg = CollectionRegistry::new();
    assert_eq!(reg.register(vec![1, 2]), Ok(()));
    assert_eq!(reg.register(vec![1, 2]), Err(StoreError::PrefixCollision));
    assert_eq!(reg.register(vec![1, 2, 3]), Err(StoreError::PrefixCollision));
    assert_eq!(reg.register(vec![1]), Err(StoreError::PrefixCollision));
    assert_eq!(reg.register(vec![4, 5]), Ok(()));
}
