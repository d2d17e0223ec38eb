use translation_sync::dataset::{sort_items, FieldValue, Record};

fn rec(name: &str, age: i64) -> Record {
    Record {
        fields: vec![
            ("name".to_string(), FieldValue::Text(name.to_string())),
            ("age".to_string(), FieldValue::Number(age)),
        ],
    }
}

fn field_value(r: &Record, name: &str) -> FieldValue {
    for (k, v) in &r.fields {
        if k == name {
            return v.clone();
        }
    }
    FieldValue::Other
}

#[test]
fn test_sort_items_string() {
    let mut items = vec![rec("zebra", 5), rec("apple", 3), rec("banana", 7)];
    sort_items(&mut items, "name", "asc");
    assert_eq!(
        field_value(&items[0], "name"),
        FieldValue::Text("apple".to_string())
    );
    sort_items(&mut items, "name", "desc");
    assert_eq!(
        field_value(&items[0], "name"),
        FieldValue::Text("zebra".to_string())
    );
}

#[test]
fn test_sort_items_number() {
    let mut items = vec![rec("zebra", 5), rec("apple", 3), rec("banana", 7)];
    sort_items(&mut items, "age", "asc");
    assert_eq!(field_value(&items[0], "age"), FieldValue::Number(3));
    sort_items(&mut items, "age", "desc");
    assert_eq!(field_value(&items[0], "age"), FieldValue::Number(7));
}

#[test]
fn sort_is_stable_on_equal_keys() {
    let mut items = vec![rec("b", 1), rec("a", 1)];
    sort_items(&mut items, "age", "asc");
    assert_eq!(
        field_value(&items[0], "name"),
        FieldValue::Text("b".to_string())
    );
    assert_eq!(
        field_value(&items[1], "name"),
        FieldValue::Text("a".to_string())
    );
}

#[test]
fn descending_reverses_ascending_on_distinct_keys() {
    let items = vec![rec("c", 2), rec("a", 9), rec("b", 4)];
    let mut asc = items.clone();
    sort_items(&mut asc, "age", "asc");
    let mut desc = items.clone();
    sort_items(&mut desc, "age", "desc");
    let mut reversed = asc.clone();
    reversed.reverse();
    assert_eq!(desc, reversed);
}

#[test]
fn sort_by_boolean_field() {
    let mut items = vec![
        Record {
            fields: vec![("done".to_string(), FieldValue::Truth(true))],
        },
        Record {
            fields: vec![("done".to_string(), FieldValue::Truth(false))],
        },
    ];
    sort_items(&mut items, "done", "asc");
    assert_eq!(field_value(&items[0], "done"), FieldValue::Truth(false));
}

#[test]
fn missing_field_compares_equal_and_keeps_order() {
    let mut items = vec![rec("first", 2), Record { fields: vec![] }, rec("last", 1)];
    sort_items(&mut items, "color", "asc");
    assert_eq!(
        field_value(&items[0], "name"),
        FieldValue::Text("first".to_string())
    );
    assert_eq!(field_value(&items[1], "name"), FieldValue::Other);
    assert_eq!(
        field_value(&items[2], "name"),
        FieldValue::Text("last".to_string())
    );
}

#[test]
fn sort_text_is_lexicographic_by_code_point() {
    let mut items = vec![rec("b", 1), rec("B", 2), rec("a", 3)];
    sort_items(&mut items, "name", "asc");
    // Upper-case letters come before lower-case ones.
    assert_eq!(
        field_value(&items[0], "name"),
        FieldValue::Text("B".to_string())
    );
    assert_eq!(
        field_value(&items[1], "name"),
        FieldValue::Text("a".to_string())
    );
}
