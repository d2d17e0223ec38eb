use base64::engine::general_purpose::STANDARD as BASE64;
use base64::Engine;
use translation_sync::ingest::{
    count_keys_and_bytes, ingest, ingest_at, upload_misc_git, FileToUpload, IngestError,
    MiscGitRequest, UploadRequest,
};
use translation_sync::store::{IndexTable, ObjectStore};

fn packed_of(value: &serde_json::Value) -> (Vec<u8>, String) {
    let packed = rmp_serde::to_vec(value).unwrap();
    let encoded = BASE64.encode(&packed);
    (packed, encoded)
}

fn raw_object(pairs: &[(&str, &str)]) -> serde_json::Value {
    let mut inner = serde_json::Map::new();
    for (k, v) in pairs {
        inner.insert(k.to_string(), serde_json::Value::String(v.to_string()));
    }
    let mut outer = serde_json::Map::new();
    outer.insert("raw".to_string(), serde_json::Value::Object(inner));
    serde_json::Value::Object(outer)
}

fn file_with_packed(filename: &str, encoded: String) -> FileToUpload {
    FileToUpload {
        lang: "en".to_string(),
        filename: filename.to_string(),
        contents: vec![],
        source_hash: "".to_string(),
        packed_data: Some(encoded),
    }
}

#[test]
fn test_count_keys_and_bytes_packed() {
    let payload = raw_object(&[("k1", "v1"), ("k2", "v2")]);
    let (packed, packed_b64) = packed_of(&payload);
    let file = file_with_packed("common.json", packed_b64);
    let (keys, bytes) = count_keys_and_bytes(&file).expect("should parse packed data");
    assert_eq!(keys, 2);
    assert_eq!(bytes, packed.len());
}

#[test]
fn test_count_keys_and_bytes_contents() {
    let payload = raw_object(&[("a", "A"), ("b", "B")]);
    let (_packed, packed_b64) = packed_of(&payload);
    let file = file_with_packed("common.json", packed_b64);
    let (keys, bytes) = count_keys_and_bytes(&file).expect("should parse contents via packed_data");
    assert_eq!(keys, 2);
    assert!(bytes > 0);
}

#[test]
fn test_count_keys_large() {
    let mut obj = serde_json::Map::new();
    for i in 0..10001 {
        obj.insert(i.to_string(), serde_json::Value::String("x".to_string()));
    }
    let mut outer = serde_json::Map::new();
    outer.insert("raw".to_string(), serde_json::Value::Object(obj));
    let payload = serde_json::Value::Object(outer);
    let (_packed, packed_b64) = packed_of(&payload);
    let file = file_with_packed("big.json", packed_b64);
    let (keys, _) = count_keys_and_bytes(&file).expect("should parse big file");
    assert_eq!(keys, 10001);
}

#[test]
fn count_keys_without_raw_uses_top_level() {
    let mut obj = serde_json::Map::new();
    obj.insert("x".to_string(), serde_json::Value::String("1".to_string()));
    obj.insert("y".to_string(), serde_json::Value::String("2".to_string()));
    obj.insert("z".to_string(), serde_json::Value::String("3".to_string()));
    let (_packed, packed_b64) = packed_of(&serde_json::Value::Object(obj));
    let file = file_with_packed("top.json", packed_b64);
    let (keys, _) = count_keys_and_bytes(&file).unwrap();
    assert_eq!(keys, 3);
}

#[test]
fn count_keys_non_map_payload_is_zero() {
    let (_packed, packed_b64) = packed_of(&serde_json::Value::String("hello".to_string()));
    let file = file_with_packed("s.json", packed_b64);
    let (keys, _) = count_keys_and_bytes(&file).unwrap();
    assert_eq!(keys, 0);
}

#[test]
fn count_keys_from_contents_when_no_packed_payload() {
    let file = FileToUpload {
        lang: "en".to_string(),
        filename: "plain.json".to_string(),
        contents: vec![("a".to_string(), "b".to_string())],
        source_hash: "".to_string(),
        packed_data: None,
    };
    let (keys, bytes) = count_keys_and_bytes(&file).unwrap();
    assert_eq!(keys, 1);
    // {"a":"b"}
    assert_eq!(bytes, 9);
}

#[test]
fn count_keys_rejects_bad_base64() {
    let file = file_with_packed("bad.json", "!!! not base64 !!!".to_string());
    assert!(count_keys_and_bytes(&file).is_err());
}

#[test]
fn count_keys_rejects_bad_packed_bytes() {
    // 0xc1 is never a valid packed value tag.
    let file = file_with_packed("bad.json", BASE64.encode([0xc1u8]));
    assert!(count_keys_and_bytes(&file).is_err());
}

#[test]
fn count_keys_counts_duplicates_once() {
    // A two-entry map {"a": 1, "a": 2}: the repeated key leaves one binding.
    let bytes: Vec<u8> = vec![0x82, 0xa1, b'a', 0x01, 0xa1, b'a', 0x02];
    let file = file_with_packed("dup.json", BASE64.encode(&bytes));
    let (keys, _) = count_keys_and_bytes(&file).unwrap();
    assert_eq!(keys, 1);
}

#[test]
fn count_keys_takes_the_last_raw_binding() {
    // {"raw": "x", "raw": {"a": 1, "b": 2}}: the last binding of "raw" is
    // the one in force, so the nested map's two keys count.
    let bytes: Vec<u8> = vec![
        0x82, 0xa3, b'r', b'a', b'w', 0xa1, b'x', 0xa3, b'r', b'a', b'w', 0x82, 0xa1, b'a', 0x01,
        0xa1, b'b', 0x02,
    ];
    let file = file_with_packed("raw2.json", BASE64.encode(&bytes));
    let (keys, _) = count_keys_and_bytes(&file).unwrap();
    assert_eq!(keys, 2);
}

#[test]
fn count_keys_falls_back_when_last_raw_is_no_map() {
    // {"raw": {"a": 1}, "raw": 5}: the binding in force is no map, so the
    // top-level map's one distinct key counts.
    let bytes: Vec<u8> = vec![
        0x82, 0xa3, b'r', b'a', b'w', 0x81, 0xa1, b'a', 0x01, 0xa3, b'r', b'a', b'w', 0x05,
    ];
    let file = file_with_packed("raw3.json", BASE64.encode(&bytes));
    let (keys, _) = count_keys_and_bytes(&file).unwrap();
    assert_eq!(keys, 1);
}

#[test]
fn count_keys_rejects_non_string_map_key() {
    // A map {1: 1}: a JSON object cannot be keyed by a number.
    let bytes: Vec<u8> = vec![0x81, 0x01, 0x01];
    let file = file_with_packed("intkey.json", BASE64.encode(&bytes));
    assert!(count_keys_and_bytes(&file).is_err());
}

#[test]
fn count_keys_rejects_extension_value() {
    // A fixext 1 value: a JSON document cannot hold an extension.
    let bytes: Vec<u8> = vec![0xd4, 0x01, 0x00];
    let file = file_with_packed("ext.json", BASE64.encode(&bytes));
    assert!(count_keys_and_bytes(&file).is_err());
}

#[test]
fn count_keys_rejects_binary_value() {
    // A bin 8 value: a JSON document cannot hold raw bytes.
    let bytes: Vec<u8> = vec![0xc4, 0x01, 0x00];
    let file = file_with_packed("bin.json", BASE64.encode(&bytes));
    assert!(count_keys_and_bytes(&file).is_err());
}

fn request_of(files: Vec<FileToUpload>, commit: &str) -> UploadRequest {
    UploadRequest {
        project_id: "proj".to_string(),
        branch: "main".to_string(),
        commit_sha: commit.to_string(),
        files,
    }
}

fn ids_for(n: usize) -> Vec<String> {
    (0..n).map(|i| format!("id-{}", i)).collect()
}

#[test]
fn ingest_rejects_too_many_keys_with_413_and_no_writes() {
    let mut obj = serde_json::Map::new();
    for i in 0..10001 {
        obj.insert(i.to_string(), serde_json::Value::String("x".to_string()));
    }
    let mut outer = serde_json::Map::new();
    outer.insert("raw".to_string(), serde_json::Value::Object(obj));
    let (_p, b64) = packed_of(&serde_json::Value::Object(outer));
    let files = vec![file_with_packed("ok.json", packed_of(&raw_object(&[("a", "b")])).1),
        file_with_packed("big.json", b64)];
    let mut store = ObjectStore::new();
    let mut index = IndexTable::new();
    let req = request_of(files, "c1");
    let ids = ids_for(2);
    let err = ingest_at(&mut store, &mut index, &req, "t0", &ids).unwrap_err();
    assert_eq!(err.status(), 413);
    assert!(matches!(err, IngestError::TooManyKeys { index: 1, keys: 10001 }));
    assert_eq!(store.len(), 0);
    assert_eq!(index.len(), 0);
}

#[test]
fn ingest_rejects_malformed_payload_with_400_and_no_writes() {
    let good = file_with_packed("a.json", packed_of(&raw_object(&[("a", "b")])).1);
    let bad = file_with_packed("b.json", "%%% not base64 %%%".to_string());
    let also_good = file_with_packed("c.json", packed_of(&raw_object(&[("c", "d")])).1);
    let mut store = ObjectStore::new();
    let mut index = IndexTable::new();
    let req = request_of(vec![good, bad, also_good], "c1");
    let ids = ids_for(3);
    let err = ingest_at(&mut store, &mut index, &req, "t0", &ids).unwrap_err();
    assert_eq!(err.status(), 400);
    assert!(matches!(err, IngestError::MalformedPayload { index: 1, .. }));
    assert_eq!(store.len(), 0);
    assert_eq!(index.len(), 0);
}

#[test]
fn ingest_rejects_oversized_file_with_413() {
    // A single string value of 5 MiB + 1 bytes: tag 0xdb, 32-bit length, payload.
    let len: usize = 5 * 1024 * 1024 + 1;
    let mut bytes = vec![0u8; len + 5];
    bytes[0] = 0xdb;
    bytes[1] = ((len >> 24) & 0xff) as u8;
    bytes[2] = ((len >> 16) & 0xff) as u8;
    bytes[3] = ((len >> 8) & 0xff) as u8;
    bytes[4] = (len & 0xff) as u8;
    let file = file_with_packed("huge.bin", BASE64.encode(&bytes));
    let mut store = ObjectStore::new();
    let mut index = IndexTable::new();
    let req = request_of(vec![file], "c1");
    let ids = ids_for(1);
    let err = ingest_at(&mut store, &mut index, &req, "t0", &ids).unwrap_err();
    assert_eq!(err.status(), 413);
    assert!(matches!(err, IngestError::FileTooLarge { index: 0, .. }));
    assert_eq!(store.len(), 0);
}

#[test]
fn ingest_rejects_total_key_overflow_with_413() {
    let mut obj = serde_json::Map::new();
    for i in 0..10000 {
        obj.insert(i.to_string(), serde_json::Value::String("x".to_string()));
    }
    let mut outer = serde_json::Map::new();
    outer.insert("raw".to_string(), serde_json::Value::Object(obj));
    let (_p, b64) = packed_of(&serde_json::Value::Object(outer));
    let files: Vec<FileToUpload> = (0..21)
        .map(|i| file_with_packed(&format!("f{}.json", i), b64.clone()))
        .collect();
    let mut store = ObjectStore::new();
    let mut index = IndexTable::new();
    let req = request_of(files, "c1");
    let ids = ids_for(21);
    let err = ingest_at(&mut store, &mut index, &req, "t0", &ids).unwrap_err();
    assert_eq!(err.status(), 413);
    assert!(matches!(err, IngestError::TotalKeysExceeded));
    assert_eq!(store.len(), 0);
}

#[test]
fn ingest_rejects_total_byte_overflow_with_413() {
    // Eleven 5 MiB files stay within the per-file limit but not the total.
    let len: usize = 5 * 1024 * 1024 - 10;
    let mut bytes = vec![0u8; len + 5];
    bytes[0] = 0xdb;
    bytes[1] = ((len >> 24) & 0xff) as u8;
    bytes[2] = ((len >> 16) & 0xff) as u8;
    bytes[3] = ((len >> 8) & 0xff) as u8;
    bytes[4] = (len & 0xff) as u8;
    let b64 = BASE64.encode(&bytes);
    let files: Vec<FileToUpload> = (0..11)
        .map(|i| file_with_packed(&format!("f{}.bin", i), b64.clone()))
        .collect();
    let mut store = ObjectStore::new();
    let mut index = IndexTable::new();
    let req = request_of(files, "c1");
    let ids = ids_for(11);
    let err = ingest_at(&mut store, &mut index, &req, "t0", &ids).unwrap_err();
    assert_eq!(err.status(), 413);
    assert!(matches!(err, IngestError::TotalBytesExceeded));
    assert_eq!(store.len(), 0);
}

#[test]
fn ingest_writes_object_cache_and_index_row() {
    let payload = raw_object(&[("k1", "v1"), ("k2", "v2")]);
    let (packed, b64) = packed_of(&payload);
    let mut file = file_with_packed("common.json", b64);
    file.source_hash = "hash1".to_string();
    let mut store = ObjectStore::new();
    let mut index = IndexTable::new();
    let req = request_of(vec![file], "c1");
    let ids = vec!["row-1".to_string()];
    let resp = ingest_at(&mut store, &mut index, &req, "t0", &ids).unwrap();
    assert!(resp.success);
    assert_eq!(resp.uploaded_files, vec!["en/common.json".to_string()]);
    assert_eq!(resp.r2_keys, vec!["proj-en-common.json".to_string()]);
    // The main object holds the decoded payload verbatim.
    let obj = store.get("proj-en-common.json").unwrap();
    assert_eq!(obj.bytes, packed);
    assert_eq!(obj.content_type, "application/msgpack");
    assert!(obj
        .metadata
        .iter()
        .any(|(k, v)| k == "commitSha" && v == "c1"));
    // The advisory cache projection sits under its own key.
    let cache = store.get("meta-proj-en-common.json").unwrap();
    assert_eq!(cache.content_type, "application/json");
    assert_eq!(
        String::from_utf8(cache.bytes.clone()).unwrap(),
        "{\"projectId\":\"proj\",\"lang\":\"en\",\"filename\":\"common.json\",\"keys\":2,\
         \"sourceHash\":\"hash1\",\"updatedAt\":\"t0\"}"
    );
    // One index row, carrying the derived storage key.
    assert_eq!(index.len(), 1);
    let row = index.get("proj", "main", "en", "common.json").unwrap();
    assert_eq!(row.id, "row-1");
    assert_eq!(row.r2_key, "proj-en-common.json");
    assert_eq!(row.total_keys, 2);
    assert_eq!(row.uploaded_at, "t0");
}

#[test]
fn reingest_same_tuple_overwrites_and_updates() {
    let (_p1, b64_1) = packed_of(&raw_object(&[("k1", "v1")]));
    let (p2, b64_2) = packed_of(&raw_object(&[("k1", "v1"), ("k2", "v2"), ("k3", "v3")]));
    let mut store = ObjectStore::new();
    let mut index = IndexTable::new();

    let req1 = request_of(vec![file_with_packed("common.json", b64_1)], "c1");
    ingest_at(&mut store, &mut index, &req1, "t1", &vec!["row-1".to_string()]).unwrap();
    let store_len = store.len();
    let req2 = request_of(vec![file_with_packed("common.json", b64_2)], "c2");
    ingest_at(&mut store, &mut index, &req2, "t2", &vec!["row-2".to_string()]).unwrap();

    // Same storage key, object overwritten, no new object or row.
    assert_eq!(store.len(), store_len);
    assert_eq!(index.len(), 1);
    let obj = store.get("proj-en-common.json").unwrap();
    assert_eq!(obj.bytes, p2);
    let row = index.get("proj", "main", "en", "common.json").unwrap();
    // Updated in place: new commit, key count and update time; original
    // identity and creation time kept.
    assert_eq!(row.commit_sha, "c2");
    assert_eq!(row.total_keys, 3);
    assert_eq!(row.last_updated, "t2");
    assert_eq!(row.id, "row-1");
    assert_eq!(row.uploaded_at, "t1");
}

#[test]
fn ingest_draws_identifiers_and_timestamps() {
    let (_p, b64) = packed_of(&raw_object(&[("a", "b")]));
    let mut store = ObjectStore::new();
    let mut index = IndexTable::new();
    let req = request_of(vec![file_with_packed("x.json", b64)], "c1");
    let resp = ingest(&mut store, &mut index, &req).unwrap();
    assert!(resp.success);
    assert_eq!(index.len(), 1);
    let row = index.get("proj", "main", "en", "x.json").unwrap();
    // Hyphenated random identifier.
    assert_eq!(row.id.len(), 36);
}

#[test]
fn misc_git_blob_is_stored_under_suffixed_key() {
    let mut store = ObjectStore::new();
    let body = MiscGitRequest {
        project_id: "proj".to_string(),
        r2_key: "proj-en-common.json".to_string(),
        metadata_base64: BASE64.encode(b"misc bytes"),
        lang: Some("en".to_string()),
        filename: None,
    };
    let key = upload_misc_git(&mut store, &body).unwrap();
    assert_eq!(key, "proj-en-common.json-misc-git");
    let obj = store.get(&key).unwrap();
    assert_eq!(obj.bytes, b"misc bytes");
    assert!(obj.metadata.iter().any(|(k, v)| k == "lang" && v == "en"));
}

#[test]
fn misc_git_rejects_bad_base64() {
    let mut store = ObjectStore::new();
    let body = MiscGitRequest {
        project_id: "proj".to_string(),
        r2_key: "k".to_string(),
        metadata_base64: "*** nope ***".to_string(),
        lang: None,
        filename: None,
    };
    assert!(upload_misc_git(&mut store, &body).is_err());
    assert_eq!(store.len(), 0);
}
