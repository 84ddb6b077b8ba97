use calico::payload::{
    annotation_patch, body_with_spec, field_bool, field_text, field_u64, mark_deleted, object_spec,
};
use serde_json::Value;

fn json(text: &str) -> Value {
    serde_json::from_str(text).unwrap()
}

#[test]
fn fields_are_read_by_type() {
    let v = json(r#"{"yes": true, "no": false, "word": "w", "count": 26, "minus": -1, "part": 1.5}"#);
    assert_eq!(field_bool(&v, "yes"), Some(true));
    assert_eq!(field_bool(&v, "no"), Some(false));
    assert_eq!(field_bool(&v, "word"), None);
    assert_eq!(field_bool(&v, "absent"), None);
    assert_eq!(field_text(&v, "word"), Some("w".to_string()));
    assert_eq!(field_text(&v, "count"), None);
    assert_eq!(field_text(&v, "absent"), None);
    assert_eq!(field_u64(&v, "count"), Some(26));
    assert_eq!(field_u64(&v, "minus"), None);
    assert_eq!(field_u64(&v, "part"), None);
    assert_eq!(field_u64(&v, "word"), None);
    assert_eq!(field_text(&json(r#"["word"]"#), "word"), None);
}

#[test]
fn a_specification_is_put_into_a_body_and_read_back() {
    let body = body_with_spec(json(r#"{"cidr": "10.0.0.0/8"}"#));
    assert_eq!(body, json(r#"{"spec": {"cidr": "10.0.0.0/8"}}"#));
    assert_eq!(object_spec(&body), json(r#"{"cidr": "10.0.0.0/8"}"#));
}

#[test]
fn a_deletion_mark_keeps_the_rest() {
    let mut body = json(r#"{"spec": {"cidr": "c", "deleted": false}, "status": 1}"#);
    mark_deleted(&mut body);
    assert_eq!(body, json(r#"{"spec": {"cidr": "c", "deleted": true}, "status": 1}"#));
    let mut bare = json("{}");
    mark_deleted(&mut bare);
    assert_eq!(bare, json(r#"{"spec": {"deleted": true}}"#));
    let mut text = json(r#"{"spec": "s"}"#);
    mark_deleted(&mut text);
    assert_eq!(text, json(r#"{"spec": "s"}"#));
    let mut none = json("null");
    mark_deleted(&mut none);
    assert_eq!(none, Value::Null);
}

#[test]
fn annotations_are_patched_alone() {
    let pairs = vec![
        ("a".to_string(), "1".to_string()),
        ("b".to_string(), "2".to_string()),
    ];
    assert_eq!(
        annotation_patch(&pairs),
        json(r#"{"metadata": {"annotations": {"a": "1", "b": "2"}}}"#)
    );
}
