use devops_gantt::json::JsonValue;
use devops_gantt::text::{last_path_segment, parse_u32, push_decimal};

fn text(s: &str) -> JsonValue {
    JsonValue::Text(s.to_string())
}

#[test]
fn decimal_formatting() {
    let mut out = String::from("n=");
    push_decimal(&mut out, 0);
    assert_eq!(out, "n=0");
    let mut out = String::new();
    push_decimal(&mut out, 4294967295);
    assert_eq!(out, "4294967295");
    let mut out = String::new();
    push_decimal(&mut out, 101);
    assert_eq!(out, "101");
}

#[test]
fn decimal_parsing() {
    assert_eq!(parse_u32("42"), Some(42));
    assert_eq!(parse_u32("0"), Some(0));
    assert_eq!(parse_u32("4294967295"), Some(4294967295));
    assert_eq!(parse_u32("4294967296"), None);
    assert_eq!(parse_u32(""), None);
    assert_eq!(parse_u32("12a"), None);
    assert_eq!(parse_u32("-1"), None);
}

#[test]
fn last_segment_of_urls() {
    assert_eq!(last_path_segment("https://dev.azure.com/o/p/_apis/wit/workItems/101"), "101");
    assert_eq!(last_path_segment("no-slash"), "no-slash");
    assert_eq!(last_path_segment("ends/with/"), "");
}

#[test]
fn json_values_compare_structurally() {
    let a = JsonValue::Object(vec![("k".to_string(), text("v"))]);
    let b = JsonValue::Object(vec![("k".to_string(), text("v"))]);
    assert_eq!(a, b);
}
