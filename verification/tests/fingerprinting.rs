use translation_sync::fingerprint::{batch_hash_values, hash_value};

#[test]
fn test_hash_value() {
    let value = "Hello, World!";
    let hash = hash_value(value);
    assert_eq!(hash.len(), 16);
    let hash2 = hash_value(value);
    assert_eq!(hash, hash2);
}

#[test]
fn test_batch_hash_values() {
    let values = vec![
        "value1".to_string(),
        "value2".to_string(),
        "value3".to_string(),
    ];
    let hashes = batch_hash_values(&values);
    assert_eq!(hashes.len(), 3);
    assert!(hashes.iter().all(|h| h.len() == 16));
}

#[test]
fn hash_value_known_digests() {
    // First 16 hex characters of the SHA-256 digests.
    assert_eq!(hash_value(""), "e3b0c44298fc1c14");
    assert_eq!(hash_value("Hello, World!"), "dffd6021bb2bd5b0");
    assert_eq!(hash_value("value1"), "3c9683017f9e4bf3");
}

#[test]
fn hash_value_distinguishes_inputs() {
    assert_ne!(hash_value("value1"), hash_value("value2"));
}

#[test]
fn hash_value_agrees_with_crate_hex_encoding() {
    // The first eight bytes of the SHA-256 digest of the empty string,
    // rendered by the hex crate, match the library's own hex rendering.
    let digest_head = [0xe3u8, 0xb0, 0xc4, 0x42, 0x98, 0xfc, 0x1c, 0x14];
    assert_eq!(hash_value(""), hex::encode(digest_head));
}

#[test]
fn batch_matches_single() {
    let values = vec!["".to_string(), "Hello, World!".to_string(), "value1".to_string()];
    let hashes = batch_hash_values(&values);
    for (v, h) in values.iter().zip(hashes.iter()) {
        assert_eq!(h, &hash_value(v));
    }
}
