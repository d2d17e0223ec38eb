use translation_sync::validate::{
    batch_validate_translations, SourceIndex, TranslationToValidate,
};

fn index_of(pairs: &[(&str, &str)]) -> SourceIndex {
    let mut s = SourceIndex::new();
    for (k, v) in pairs {
        s.insert(k.to_string(), v.to_string());
    }
    s
}

#[test]
fn test_batch_validate_translations() {
    let source_hashes = index_of(&[("key1", "hash1"), ("key2", "hash2")]);

    let translations = vec![
        TranslationToValidate {
            id: "t1".to_string(),
            key: "key1".to_string(),
            source_hash: Some("hash1".to_string()),
        },
        TranslationToValidate {
            id: "t2".to_string(),
            key: "key2".to_string(),
            source_hash: Some("hash_old".to_string()),
        },
        TranslationToValidate {
            id: "t3".to_string(),
            key: "key3".to_string(),
            source_hash: Some("hash3".to_string()),
        },
    ];

    let results = batch_validate_translations(&translations, &source_hashes);
    assert_eq!(results.len(), 3);
    assert!(results[0].is_valid);
    assert!(!results[1].is_valid);
    assert!(!results[2].is_valid);
}

#[test]
fn validate_reasons_follow_the_table() {
    let source_hashes = index_of(&[("key1", "hash1"), ("key2", "hash2")]);
    let translations = vec![
        TranslationToValidate {
            id: "a".to_string(),
            key: "key1".to_string(),
            source_hash: Some("hash1".to_string()),
        },
        TranslationToValidate {
            id: "b".to_string(),
            key: "key2".to_string(),
            source_hash: Some("stale".to_string()),
        },
        TranslationToValidate {
            id: "c".to_string(),
            key: "gone".to_string(),
            source_hash: Some("hash9".to_string()),
        },
        TranslationToValidate {
            id: "d".to_string(),
            key: "key1".to_string(),
            source_hash: None,
        },
    ];
    let results = batch_validate_translations(&translations, &source_hashes);
    assert_eq!(results[0].id, "a");
    assert_eq!(results[0].reason, None);
    assert_eq!(results[1].reason.as_deref(), Some("source value changed"));
    assert_eq!(
        results[2].reason.as_deref(),
        Some("key no longer exists in source")
    );
    assert_eq!(
        results[3].reason.as_deref(),
        Some("translation missing source tracking")
    );
}

#[test]
fn index_insert_replaces() {
    let mut s = SourceIndex::new();
    s.insert("k".to_string(), "v1".to_string());
    s.insert("k".to_string(), "v2".to_string());
    assert_eq!(s.len(), 1);
    assert_eq!(s.get("k").map(|v| v.as_str()), Some("v2"));
    assert!(s.get("missing").is_none());
}
