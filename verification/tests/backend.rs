use calico::backend::{
    apply_step, collect_list, delete_token, key_to_target, list_item_key,
    require_nonzero_revision, sanitize_name, single_item_list, update_token, ApplyStep, DsError,
    ListOptions, MemBackend,
};
use calico::cas::CasError;
use calico::kdd::KddValue;
use calico::model::{KVPair, Key, ResourceKind};
use serde_json::Value;

fn json(text: &str) -> Value {
    serde_json::from_str(text).unwrap()
}

#[test]
fn require_nonzero_revision_rejects_none_and_zero() {
    assert_eq!(
        require_nonzero_revision(None).unwrap_err(),
        DsError::Datastore("update requires a valid non-zero revision for CAS".into())
    );
    assert_eq!(
        require_nonzero_revision(Some(0)).unwrap_err(),
        DsError::Datastore("update requires a valid non-zero revision for CAS".into())
    );
}

#[test]
fn require_nonzero_revision_accepts_nonzero() {
    assert_eq!(require_nonzero_revision(Some(42)).unwrap(), 42);
}

fn res_key(kind: ResourceKind, ns: Option<&str>, name: &str) -> Key {
    Key::Resource {
        kind,
        namespace: ns.map(str::to_string),
        name: name.to_string(),
    }
}

#[test]
fn create_then_get_roundtrip() {
    let mut b = MemBackend::new();
    let key = res_key(ResourceKind::IpPool, None, "pool-a");
    let created = b
        .create(KVPair::new(key.clone(), json(r#"{"cidr": "10.0.0.0/16"}"#)))
        .unwrap();
    assert!(created.revision.is_some());
    assert_eq!(created.value, json(r#"{"cidr": "10.0.0.0/16"}"#));

    let got = b.get(&key).unwrap();
    assert_eq!(got.key, key);
    assert_eq!(got.value, json(r#"{"cidr": "10.0.0.0/16"}"#));
    assert_eq!(got.revision, created.revision);
}

#[test]
fn create_existing_is_already_exists() {
    let mut b = MemBackend::new();
    let key = res_key(ResourceKind::IpPool, None, "dup");
    b.create(KVPair::new(key.clone(), json("{}"))).unwrap();
    let err = b.create(KVPair::new(key, json("{}"))).unwrap_err();
    assert_eq!(err, DsError::ResourceAlreadyExists);
}

#[test]
fn get_missing_is_does_not_exist() {
    let b = MemBackend::new();
    let key = res_key(ResourceKind::Node, None, "ghost");
    assert_eq!(b.get(&key).unwrap_err(), DsError::ResourceDoesNotExist);
}

#[test]
fn update_cas_conflict_then_success() {
    let mut b = MemBackend::new();
    let key = res_key(ResourceKind::FelixConfiguration, None, "default");
    let created = b
        .create(KVPair::new(key.clone(), json(r#"{"n": 1}"#)))
        .unwrap();
    let good_rev = created.revision.unwrap();

    // A revision that is not the current one loses.
    let stale = KVPair::with_revision(key.clone(), json(r#"{"n": 2}"#), good_rev + 999);
    assert_eq!(
        b.update(stale).unwrap_err(),
        DsError::ResourceUpdateConflict
    );

    // The current revision wins and gives way to a new one.
    let updated = b
        .update(KVPair::with_revision(
            key.clone(),
            json(r#"{"n": 3}"#),
            good_rev,
        ))
        .unwrap();
    assert_eq!(updated.value, json(r#"{"n": 3}"#));
    assert_ne!(updated.revision, created.revision);

    // The first revision is overtaken by now.
    assert_eq!(
        b.update(KVPair::with_revision(key, json(r#"{"n": 4}"#), good_rev))
            .unwrap_err(),
        DsError::ResourceUpdateConflict
    );
}

#[test]
fn update_missing_is_does_not_exist() {
    let mut b = MemBackend::new();
    let key = res_key(ResourceKind::Node, None, "ghost");
    let err = b
        .update(KVPair::with_revision(key, json("{}"), 1))
        .unwrap_err();
    assert_eq!(err, DsError::ResourceDoesNotExist);
}

#[test]
fn delete_then_get_is_does_not_exist() {
    let mut b = MemBackend::new();
    let key = res_key(ResourceKind::IpPool, None, "gone");
    let created = b.create(KVPair::new(key.clone(), json("{}"))).unwrap();
    b.delete(&key, created.revision).unwrap();
    assert_eq!(b.get(&key).unwrap_err(), DsError::ResourceDoesNotExist);
}

#[test]
fn delete_with_stale_revision_conflicts() {
    let mut b = MemBackend::new();
    let key = res_key(ResourceKind::IpPool, None, "cas");
    let created = b.create(KVPair::new(key.clone(), json("{}"))).unwrap();
    let err = b
        .delete(&key, Some(created.revision.unwrap() + 999))
        .unwrap_err();
    assert_eq!(err, DsError::ResourceUpdateConflict);
}

#[test]
fn delete_without_revision_is_unconditional() {
    let mut b = MemBackend::new();
    let key = res_key(ResourceKind::IpPool, None, "any");
    b.create(KVPair::new(key.clone(), json("{}"))).unwrap();
    b.delete(&key, None).unwrap();
    assert_eq!(b.get(&key).unwrap_err(), DsError::ResourceDoesNotExist);
    // A missing key is missing without a revision too.
    assert_eq!(
        b.delete(&key, None).unwrap_err(),
        DsError::ResourceDoesNotExist
    );
}

#[test]
fn apply_upserts() {
    let mut b = MemBackend::new();
    let key = res_key(ResourceKind::IpPool, None, "up");
    let first = b
        .apply(KVPair::new(key.clone(), json(r#"{"v": 1}"#)))
        .unwrap();
    assert_eq!(first.value, json(r#"{"v": 1}"#));
    let second = b
        .apply(KVPair::new(key.clone(), json(r#"{"v": 2}"#)))
        .unwrap();
    assert_eq!(second.value, json(r#"{"v": 2}"#));
    assert_ne!(first.revision, second.revision);
    assert_eq!(b.get(&key).unwrap().value, json(r#"{"v": 2}"#));
}

#[test]
fn list_filters_by_kind_and_namespace() {
    let mut b = MemBackend::new();
    b.create(KVPair::new(
        res_key(ResourceKind::NetworkPolicy, Some("ns1"), "p1"),
        json("{}"),
    ))
    .unwrap();
    b.create(KVPair::new(
        res_key(ResourceKind::NetworkPolicy, Some("ns1"), "p2"),
        json("{}"),
    ))
    .unwrap();
    b.create(KVPair::new(
        res_key(ResourceKind::NetworkPolicy, Some("ns2"), "p3"),
        json("{}"),
    ))
    .unwrap();
    b.create(KVPair::new(
        res_key(ResourceKind::IpPool, None, "pool"),
        json("{}"),
    ))
    .unwrap();

    // The policies of both namespaces.
    let all = b
        .list(&ListOptions::kind(ResourceKind::NetworkPolicy))
        .unwrap();
    assert_eq!(all.items.len(), 3);
    assert!(all.revision > 0);

    // Those of one namespace.
    let ns1 = b
        .list(&ListOptions::kind(ResourceKind::NetworkPolicy).in_namespace("ns1"))
        .unwrap();
    assert_eq!(ns1.items.len(), 2);
    assert!(ns1
        .items
        .iter()
        .all(|kv| matches!(&kv.key, Key::Resource { namespace: Some(n), .. } if n == "ns1")));

    // The pool.
    let pools = b.list(&ListOptions::kind(ResourceKind::IpPool)).unwrap();
    assert_eq!(pools.items.len(), 1);

    // One item by name.
    let one = b
        .list(
            &ListOptions::kind(ResourceKind::NetworkPolicy)
                .in_namespace("ns2")
                .named("p3"),
        )
        .unwrap();
    assert_eq!(one.items.len(), 1);
    assert_eq!(one.items[0].value, json("{}"));
}

#[test]
fn mem_watch_is_unsupported() {
    let b = MemBackend::new();
    let err = b
        .watch(&ListOptions::kind(ResourceKind::IpPool))
        .err()
        .unwrap();
    assert_eq!(err, DsError::OperationNotSupported);
}

#[test]
fn ensure_initialized_ok() {
    let b = MemBackend::new();
    b.ensure_initialized().unwrap();
}

#[test]
fn cas_error_maps_to_ds_error() {
    assert_eq!(
        DsError::from(CasError::NotFound),
        DsError::ResourceDoesNotExist
    );
    assert_eq!(
        DsError::from(CasError::AlreadyExists),
        DsError::ResourceAlreadyExists
    );
    assert_eq!(
        DsError::from(CasError::Conflict {
            expected: 1,
            actual: Some(2)
        }),
        DsError::ResourceUpdateConflict
    );
    assert_eq!(
        DsError::from(CasError::Backend("boom".into())),
        DsError::Datastore("boom".into())
    );
}

fn kdd_value(name: &str, namespace: Option<&str>) -> KddValue {
    KddValue {
        name: name.to_string(),
        namespace: namespace.map(str::to_string),
        spec: json("{}"),
        revision: 1,
        raw_revision: "1".to_string(),
    }
}

#[test]
fn list_item_key_preserves_per_item_namespace() {
    let a = kdd_value("dup", Some("ns1"));
    let b = kdd_value("dup", Some("ns2"));

    let ka = list_item_key(ResourceKind::NetworkPolicy, &None, &a);
    let kb = list_item_key(ResourceKind::NetworkPolicy, &None, &b);

    assert_eq!(ka, res_key(ResourceKind::NetworkPolicy, Some("ns1"), "dup"));
    assert_eq!(kb, res_key(ResourceKind::NetworkPolicy, Some("ns2"), "dup"));
    assert_ne!(
        ka, kb,
        "same-named items in different namespaces must not collide"
    );
    assert_ne!(ka.path(), kb.path());
}

#[test]
fn list_item_key_namespace_fallback() {
    // An item without its own namespace, listed within a namespace.
    let scoped = list_item_key(
        ResourceKind::NetworkPolicy,
        &Some("ns1".to_string()),
        &kdd_value("p", None),
    );
    assert_eq!(
        scoped,
        res_key(ResourceKind::NetworkPolicy, Some("ns1"), "p")
    );

    // No namespace anywhere.
    let cluster = list_item_key(ResourceKind::IpPool, &None, &kdd_value("pool", None));
    assert_eq!(cluster, res_key(ResourceKind::IpPool, None, "pool"));
}

#[test]
fn ipam_key_names_match_kddipam() {
    // The name of a block is the token of its CIDR.
    let (kind, ns, name) = key_to_target(&Key::Block {
        cidr: "10.0.0.0/26".into(),
    });
    assert_eq!(kind, ResourceKind::IpamBlock);
    assert_eq!(ns, None);
    assert_eq!(name, "10-0-0-0-26");

    let (kind, _, name) = key_to_target(&Key::BlockAffinity {
        host: "node-1".into(),
        cidr: "10.0.0.0/26".into(),
    });
    assert_eq!(kind, ResourceKind::BlockAffinity);
    assert_eq!(name, "node-1-10-0-0-0-26");

    let (kind, _, name) = key_to_target(&Key::IpamHandle {
        id: "net.ABC/xyz".into(),
    });
    assert_eq!(kind, ResourceKind::IpamHandle);
    assert_eq!(name, "net.abc-xyz");
}

#[test]
fn datastore_errors_in_words() {
    let all = [
        DsError::ResourceUpdateConflict,
        DsError::ResourceDoesNotExist,
        DsError::ResourceAlreadyExists,
        DsError::OperationNotSupported,
        DsError::Datastore("x".to_string()),
    ];
    let texts: Vec<String> = all.iter().map(|e| e.text()).collect();
    assert_eq!(
        texts,
        [
            "resource update conflict",
            "resource does not exist",
            "resource already exists",
            "operation not supported",
            "datastore error: x",
        ]
    );
    assert_eq!(all[4].clone(), DsError::Datastore("x".to_string()));
}

#[test]
fn tokens_of_conditional_requests() {
    assert_eq!(update_token(Some(42)), Ok("42".to_string()));
    assert!(update_token(Some(0)).is_err());
    assert!(update_token(None).is_err());
    assert_eq!(apply_step(&None), ApplyStep::Create);
    let mut v = kdd_value("a", None);
    v.raw_revision = "77".to_string();
    assert_eq!(
        apply_step(&Some(v)),
        ApplyStep::Update("77".to_string())
    );
    assert_eq!(delete_token(Some(9), &None), Ok("9".to_string()));
    assert_eq!(
        delete_token(None, &None),
        Err(DsError::ResourceDoesNotExist)
    );
    let mut v = kdd_value("a", None);
    v.raw_revision = "78".to_string();
    assert_eq!(delete_token(None, &Some(v)), Ok("78".to_string()));
}

#[test]
fn names_are_sanitized() {
    assert_eq!(sanitize_name("K8s-Pod.Net/eth0"), "k8s-pod.net-eth0");
    assert_eq!(sanitize_name("-.a_b.-"), "-.a-b.-");
    assert_eq!(sanitize_name(&"x".repeat(300)).len(), 253);
}

#[test]
fn sanitized_names_stay_as_they_are() {
    for text in ["", "K8s-Pod.Net/eth0", "-.a_b.-", "a\u{e9}\u{130}\u{212a}Z9 ", "already-a.name-0"] {
        let once = sanitize_name(text);
        assert!(once
            .chars()
            .all(|c| c.is_ascii_lowercase() || c.is_ascii_digit() || c == '-' || c == '.'));
        assert_eq!(sanitize_name(&once), once);
    }
    assert_eq!(sanitize_name("already-a.name-0"), "already-a.name-0");
    let long = "\u{130}".repeat(300);
    assert_eq!(sanitize_name(&sanitize_name(&long)), sanitize_name(&long));
    assert_eq!(sanitize_name(&long).len(), 253);
}

#[test]
fn lists_of_the_api_become_pairs() {
    let opts = ListOptions::kind(ResourceKind::NetworkPolicy).in_namespace("ns1");
    let mut a = kdd_value("a", Some("ns2"));
    a.revision = 4;
    let mut b = kdd_value("b", None);
    b.revision = 9;
    let l = collect_list(&opts, vec![a, b]);
    assert_eq!(l.items.len(), 2);
    assert_eq!(
        l.items[0].key,
        res_key(ResourceKind::NetworkPolicy, Some("ns2"), "a")
    );
    assert_eq!(
        l.items[1].key,
        res_key(ResourceKind::NetworkPolicy, Some("ns1"), "b")
    );
    assert_eq!(l.items[1].revision, Some(9));
    assert_eq!(l.revision, 9);
    let none = single_item_list(&opts, "x", None);
    assert_eq!((none.items.len(), none.revision), (0, 0));
    let mut c = kdd_value("x", None);
    c.revision = 3;
    let one = single_item_list(&opts, "x", Some(c));
    assert_eq!((one.items.len(), one.revision), (1, 3));
    assert_eq!(
        one.items[0].key,
        res_key(ResourceKind::NetworkPolicy, Some("ns1"), "x")
    );
}
