use devops_gantt::{decode_bulk, decode_work_item, ClientError, JsonValue, WorkItem};

fn text(s: &str) -> JsonValue {
    JsonValue::Text(s.to_string())
}

fn object(members: Vec<(&str, JsonValue)>) -> JsonValue {
    JsonValue::Object(members.into_iter().map(|(k, v)| (k.to_string(), v)).collect())
}

fn relation(kind: &str, url: &str) -> JsonValue {
    object(vec![("attributes", object(vec![("name", text(kind))])), ("url", text(url))])
}

fn item(id: &str, title: &str, kind: &str, relations: Option<Vec<JsonValue>>) -> JsonValue {
    let mut members = vec![
        ("id", JsonValue::Number(id.to_string())),
        (
            "fields",
            object(vec![("System.Title", text(title)), ("System.WorkItemType", text(kind))]),
        ),
    ];
    if let Some(rs) = relations {
        members.push(("relations", JsonValue::Array(rs)));
    }
    object(members)
}

#[test]
fn decodes_single_item() {
    let v = item("42", "Launch", "Feature", Some(vec![relation("Child", "https://x/workitems/101")]));
    let w = decode_work_item("raw".to_string(), Some(v)).unwrap();
    assert_eq!(w.id, 42);
    assert_eq!(w.fields.title, "Launch");
    assert_eq!(w.fields.work_item_type, "Feature");
    assert_eq!(w.relations.len(), 1);
    assert_eq!(w.relations[0].attributes.relation_type, "Child");
    assert_eq!(w.relations[0].url, "https://x/workitems/101");
}

#[test]
fn absent_relations_mean_none() {
    let w = WorkItem::from_json(&item("7", "t", "Task", None)).unwrap();
    assert!(w.relations.is_empty());
}

#[test]
fn malformed_body_keeps_raw_text() {
    let raw = "{\"id\": 4, oops".to_string();
    assert_eq!(decode_work_item(raw.clone(), None), Err(ClientError::Decode(raw.clone())));
    assert_eq!(decode_bulk(raw.clone(), None), Err(ClientError::Decode(raw)));
}

#[test]
fn schema_mismatch_keeps_raw_text() {
    let raw = "{\"fields\":{}}".to_string();
    let v = object(vec![("fields", object(vec![]))]);
    assert_eq!(decode_work_item(raw.clone(), Some(v)), Err(ClientError::Decode(raw)));
    let raw = "{\"id\":\"4\"}".to_string();
    let v = object(vec![
        ("id", text("4")),
        ("fields", object(vec![("System.Title", text("a")), ("System.WorkItemType", text("b"))])),
    ]);
    assert_eq!(decode_work_item(raw.clone(), Some(v)), Err(ClientError::Decode(raw)));
    let raw = "[]".to_string();
    assert_eq!(decode_bulk(raw.clone(), Some(JsonValue::Array(vec![]))), Err(ClientError::Decode(raw)));
}

#[test]
fn bulk_keeps_count_and_order() {
    let arr = vec![
        item("3", "c", "Task", None),
        item("1", "a", "Task", Some(vec![])),
        item("2", "b", "Bug", None),
    ];
    let v = object(vec![("count", JsonValue::Number("3".to_string())), ("value", JsonValue::Array(arr))]);
    let b = decode_bulk("raw".to_string(), Some(v)).unwrap();
    let ids: Vec<u32> = b.value.iter().map(|w| w.id).collect();
    assert_eq!(ids, vec![3, 1, 2]);
    assert_eq!(b.value[2].fields.title, "b");
}

#[test]
fn bulk_with_empty_value_is_empty() {
    let v = object(vec![("value", JsonValue::Array(vec![]))]);
    let b = decode_bulk("raw".to_string(), Some(v)).unwrap();
    assert!(b.value.is_empty());
}

#[test]
fn bulk_with_one_bad_item_fails() {
    let arr = vec![item("3", "c", "Task", None), object(vec![])];
    let v = object(vec![("value", JsonValue::Array(arr))]);
    assert_eq!(decode_bulk("body".to_string(), Some(v)), Err(ClientError::Decode("body".to_string())));
}

#[test]
fn bad_relation_fails_item() {
    let v = item("9", "t", "Task", Some(vec![object(vec![("url", text("u"))])]));
    assert_eq!(WorkItem::from_json(&v), None);
}
