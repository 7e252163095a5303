use merge_lens_core::json::{JsonMap, JsonNumber, JsonValue};
use merge_lens_core::text::{diff_three_text, diff_two_text, parse_document};
use merge_lens_core::types::DiffNode;

fn n(v: i64) -> JsonValue {
    JsonValue::from_i64(v)
}

fn object(members: Vec<(&str, JsonValue)>) -> JsonValue {
    JsonValue::Object(JsonMap {
        entries: members.into_iter().map(|(k, v)| (k.to_string(), v)).collect(),
    })
}

#[test]
fn parse_document_reads_every_kind_of_value() {
    let v = parse_document(r#"{"a": [1, -2, 2.5, "x", true, null], "b": {"c": 0}}"#).unwrap();
    let expected = object(vec![
        (
            "a",
            JsonValue::Array(vec![
                n(1),
                n(-2),
                JsonValue::Number(JsonNumber::Float(2.5f64.to_bits())),
                JsonValue::from_text("x"),
                JsonValue::Bool(true),
                JsonValue::Null,
            ]),
        ),
        ("b", object(vec![("c", n(0))])),
    ]);
    assert_eq!(v, expected);
    assert!(matches!(v.clone(), JsonValue::Object(m) if m.entries.len() == 2));
    assert!(matches!(parse_document("-7"), Ok(JsonValue::Number(JsonNumber::NegInt(-7)))));
    assert!(matches!(parse_document("7"), Ok(JsonValue::Number(JsonNumber::PosInt(7)))));
}

#[test]
fn parse_document_rejects_what_is_not_json() {
    let err = parse_document("{\"a\": ").unwrap_err();
    assert!(!err.message.is_empty());
    assert!(parse_document("").is_err());
    assert!(parse_document("[1, 2").is_err());
    assert!(parse_document("1 2").is_err());
}

#[test]
fn diff_two_text_diffs_the_documents_read() {
    let d = diff_two_text(r#"{"age": 30, "name": "Alice"}"#, r#"{"age": 31, "name": "Alice"}"#).unwrap();
    assert_eq!(d.conflict_count, 0);
    match &d.root {
        DiffNode::Object(m) => {
            assert!(matches!(m.get("age"), Some(DiffNode::Modified { conflict: false, .. })));
            assert!(matches!(m.get("name"), Some(DiffNode::Unchanged(_))));
        }
        _ => panic!("expected Object"),
    }
    assert!(diff_two_text("{", "{}").is_err());
    assert!(diff_two_text("{}", "nope").is_err());
}

#[test]
fn diff_three_text_counts_conflicts() {
    let d = diff_three_text(
        r#"{"name": "Alice", "age": 30}"#,
        r#"{"name": "Alice", "age": 31}"#,
        r#"{"name": "Bob", "age": 30}"#,
    )
    .unwrap();
    assert_eq!(d.conflict_count, 0);
    assert_eq!(d.auto_merged_count, 2);
    let d = diff_three_text(r#"{"x": 1}"#, r#"{"x": 2}"#, r#"{"x": 3}"#).unwrap();
    assert_eq!(d.conflict_count, 1);
    assert!(diff_three_text("{}", "{}", "]").is_err());
}

#[test]
fn diff_text_reports_the_first_bad_text() {
    let bad_base = "{\"a\": ";
    let bad_mine = "[1,";
    let base_msg = parse_document(bad_base).unwrap_err().message;
    let mine_msg = parse_document(bad_mine).unwrap_err().message;
    assert_ne!(base_msg, mine_msg);
    assert_eq!(diff_two_text(bad_base, bad_mine).unwrap_err().message, base_msg);
    assert_eq!(diff_two_text("{}", bad_mine).unwrap_err().message, mine_msg);
    assert_eq!(diff_three_text("{}", bad_mine, bad_base).unwrap_err().message, mine_msg);
    assert_eq!(diff_three_text("{}", "{}", bad_base).unwrap_err().message, base_msg);
    assert!(base_msg.contains("line 1"));
}
