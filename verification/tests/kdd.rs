use calico::cas::CasError;
use calico::kdd::{
    guard_patch, hash_hostname_for_label, hash_label_for_digest, host_selector,
    hostname_hash_label, map_err, soft_then_hard_delete, to_value, ApiFailure, DeleteAction,
    DeleteEvent, DeletePhase, ObjectFacts, Op, LABEL_HOSTNAME_HASH,
};

#[test]
fn golden_hostname_hash_matches_upstream() {
    assert_eq!(
        hash_hostname_for_label("node-a"),
        "PY3TQE2E3XMTETLM2MJO3UITKPFB27YUJ4T4E5XGPEJON3SM4QAA"
    );
}

#[test]
fn different_hosts_hash_differently() {
    assert_ne!(
        hash_hostname_for_label("node-a"),
        hash_hostname_for_label("node-b")
    );
}

#[test]
fn hash_output_fits_label_length_limit() {
    assert!(hash_hostname_for_label("a-very-long-hostname.example.com").len() <= 63);
    assert!(hash_hostname_for_label("node-a").len() <= 63);
}

#[test]
fn hostname_hash_label_pairs_key_and_hash() {
    let (key, value) = hostname_hash_label("node-a");
    assert_eq!(key, LABEL_HOSTNAME_HASH);
    assert_eq!(value, hash_hostname_for_label("node-a"));
}

#[test]
fn host_selector_names_label_and_hash() {
    assert_eq!(
        host_selector("node-a"),
        "projectcalico.org/hostname-hash=PY3TQE2E3XMTETLM2MJO3UITKPFB27YUJ4T4E5XGPEJON3SM4QAA"
    );
    assert_eq!(
        hash_label_for_digest(&[0u8; 32]),
        "AAAAAAAAAAAAAAAAAAAAAAAAAAAAAAAAAAAAAAAAAAAAAAAAAAAA"
    );
}

fn facts(name: Option<&str>, token: Option<&str>) -> ObjectFacts {
    ObjectFacts {
        name: name.map(str::to_string),
        namespace: Some("ns".to_string()),
        resource_version: token.map(str::to_string),
        labels: None,
        spec: serde_json::Value::Bool(true),
    }
}

#[test]
fn values_need_a_name_and_read_their_token() {
    let v = to_value(facts(Some("a"), Some("42"))).unwrap();
    assert_eq!((v.name.as_str(), v.revision), ("a", 42));
    assert_eq!(v.raw_revision, "42");
    assert_eq!(v.spec, serde_json::Value::Bool(true));
    assert_eq!(v.namespace, Some("ns".to_string()));
    let odd = to_value(facts(Some("a"), Some("x"))).unwrap();
    assert_eq!((odd.revision, odd.raw_revision.as_str()), (0, "x"));
    let none = to_value(facts(Some("a"), None)).unwrap();
    assert_eq!((none.revision, none.raw_revision.as_str()), (0, ""));
    assert_eq!(
        to_value(facts(None, None)),
        Err(CasError::Backend("object has no name".to_string()))
    );
}

fn api(code: u16) -> ApiFailure {
    ApiFailure::Api {
        code,
        message: "why".to_string(),
    }
}

#[test]
fn failures_of_the_api_are_understood() {
    assert_eq!(map_err(api(404), Op::Get), CasError::NotFound);
    assert_eq!(map_err(api(409), Op::Create), CasError::AlreadyExists);
    assert_eq!(
        map_err(api(409), Op::Update),
        CasError::Conflict {
            expected: 0,
            actual: None
        }
    );
    assert_eq!(
        map_err(api(409), Op::Delete),
        CasError::Conflict {
            expected: 0,
            actual: None
        }
    );
    assert_eq!(
        map_err(api(500), Op::List),
        CasError::Backend("why".to_string())
    );
    assert_eq!(
        map_err(ApiFailure::Other("lost".to_string()), Op::Get),
        CasError::Backend("lost".to_string())
    );
}

fn json(text: &str) -> serde_json::Value {
    serde_json::from_str(text).unwrap()
}

#[test]
fn patches_are_tied_to_a_version() {
    let seven = || Some("7".to_string());
    assert_eq!(guard_patch(json("[1]"), None), Ok(json("[1]")));
    assert_eq!(
        guard_patch(json(r#"{"a": 1}"#), seven()),
        Ok(json(r#"{"a": 1, "metadata": {"resourceVersion": "7"}}"#))
    );
    assert_eq!(
        guard_patch(
            json(r#"{"metadata": {"labels": {"k": null}, "resourceVersion": "6"}}"#),
            seven()
        ),
        Ok(json(
            r#"{"metadata": {"labels": {"k": null}, "resourceVersion": "7"}}"#
        ))
    );
    assert_eq!(
        guard_patch(json("[1]"), seven()),
        Err(CasError::Backend("patch must be a JSON object".to_string()))
    );
    assert_eq!(
        guard_patch(json(r#"{"metadata": 3}"#), seven()),
        Err(CasError::Backend("metadata must be an object".to_string()))
    );
}

#[test]
fn facts_read_the_specification_in_the_body() {
    let read = |body: &str| ObjectFacts::new(Some("n".to_string()), None, None, None, &json(body));
    assert_eq!(read(r#"{"spec": {"a": 1}, "status": 2}"#).spec, json(r#"{"a": 1}"#));
    assert_eq!(read(r#"{"status": 2}"#).spec, json("{}"));
    assert_eq!(read("7").spec, json("{}"));
}

#[test]
fn deletion_marks_first_and_then_removes() {
    let (phase, action) = soft_then_hard_delete(
        DeletePhase::Reading,
        DeleteEvent::Found {
            uid: Some("u".to_string()),
            resource_version: Some("5".to_string()),
        },
    );
    assert!(matches!(action, DeleteAction::Mark { resource_version } if resource_version == "5"));
    let (phase, action) = soft_then_hard_delete(
        phase,
        DeleteEvent::Marked {
            resource_version: Some("6".to_string()),
        },
    );
    assert!(matches!(
        action,
        DeleteAction::Remove { resource_version, uid: Some(uid) }
            if resource_version == "6" && uid == "u"
    ));
    let (_, action) = soft_then_hard_delete(phase, DeleteEvent::Removed);
    assert!(matches!(action, DeleteAction::Finish(Ok(()))));
}

#[test]
fn deletion_of_what_is_gone_has_happened() {
    let (_, action) = soft_then_hard_delete(DeletePhase::Reading, DeleteEvent::Missing);
    assert!(matches!(action, DeleteAction::Finish(Ok(()))));
    for phase in [DeletePhase::Marking { uid: None }, DeletePhase::Removing] {
        let (_, action) = soft_then_hard_delete(phase, DeleteEvent::Failed(api(404)));
        assert!(matches!(action, DeleteAction::Finish(Ok(()))));
    }
    for phase in [DeletePhase::Marking { uid: None }, DeletePhase::Removing] {
        let (_, action) = soft_then_hard_delete(phase, DeleteEvent::Failed(api(409)));
        assert!(matches!(
            action,
            DeleteAction::Finish(Err(CasError::Conflict {
                expected: 0,
                actual: None
            }))
        ));
    }
    let (_, action) = soft_then_hard_delete(DeletePhase::Removing, DeleteEvent::Failed(api(500)));
    assert!(matches!(action, DeleteAction::Finish(Err(CasError::Backend(m))) if m == "why"));
    let (_, action) = soft_then_hard_delete(DeletePhase::Reading, DeleteEvent::Removed);
    assert!(matches!(action, DeleteAction::Finish(Err(CasError::Backend(m)))
        if m == "unexpected answer during deletion"));
}
