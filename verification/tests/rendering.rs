use translation_sync::ingest::{build_misc_update_sql, build_upsert_sql, generate_r2_key};
use translation_sync::render::render_string_object;
use translation_sync::store::D1FileRecord;
use translation_sync::text::{i64_dec, str_cmp, str_eq, u64_dec};

#[test]
fn storage_keys_flatten_path_separators() {
    assert_eq!(generate_r2_key("proj", "en", "common.json"), "proj-en-common.json");
    assert_eq!(generate_r2_key("proj", "en", "a/b\\c.json"), "proj-en-a-b-c.json");
}

#[test]
fn string_object_renders_in_entry_order_with_escaping() {
    let entries = vec![
        ("a".to_string(), "plain".to_string()),
        ("qu\"ote".to_string(), "back\\slash".to_string()),
        ("nl".to_string(), "a\nb".to_string()),
    ];
    let rendered = render_string_object(&entries);
    assert_eq!(
        rendered,
        "{\"a\":\"plain\",\"qu\\\"ote\":\"back\\\\slash\",\"nl\":\"a\\u000ab\"}"
    );
    assert_eq!(render_string_object(&vec![]), "{}");
}

#[test]
fn decimal_renderings() {
    assert_eq!(u64_dec(0), "0");
    assert_eq!(u64_dec(1234), "1234");
    assert_eq!(i64_dec(-50), "-50");
    assert_eq!(i64_dec(7), "7");
}

#[test]
fn upsert_sql_for_one_record() {
    let rec = D1FileRecord {
        id: "i1".to_string(),
        project_id: "p".to_string(),
        branch: "main".to_string(),
        commit_sha: "c".to_string(),
        lang: "en".to_string(),
        filename: "f.json".to_string(),
        r2_key: "p-en-f.json".to_string(),
        source_hash: "h".to_string(),
        total_keys: 2,
        uploaded_at: "t1".to_string(),
        last_updated: "t2".to_string(),
    };
    let sql = build_upsert_sql(&vec![rec]);
    assert_eq!(
        sql,
        "INSERT INTO R2File (id, projectId, branch, commitSha, lang, filename, r2Key, \
         sourceHash, totalKeys, uploadedAt, lastUpdated) VALUES \
         ('i1','p','main','c','en','f.json','p-en-f.json','h',2,'t1','t2') \
         ON CONFLICT(projectId, branch, lang, filename) DO UPDATE SET \
         commitSha = excluded.commitSha, r2Key = excluded.r2Key, \
         sourceHash = excluded.sourceHash, totalKeys = excluded.totalKeys, \
         lastUpdated = excluded.lastUpdated"
    );
}

#[test]
fn misc_update_sql_escapes_quotes() {
    let sql = build_misc_update_sql("k'1-misc-git", "k'1");
    assert_eq!(
        sql,
        "UPDATE R2File SET miscR2Key = 'k''1-misc-git' WHERE r2Key = 'k''1'"
    );
}

#[test]
fn text_comparisons() {
    assert!(str_eq("abc", "abc"));
    assert!(!str_eq("abc", "abd"));
    assert_eq!(str_cmp("a", "b"), -1);
    assert_eq!(str_cmp("b", "a"), 1);
    assert_eq!(str_cmp("ab", "abc"), -1);
    assert_eq!(str_cmp("", ""), 0);
}
