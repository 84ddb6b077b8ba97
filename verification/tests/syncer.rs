use calico::kdd::ObjectFacts;
use calico::model::{Key, ResourceKind};
use calico::ordmap::{Labels, OrdMap};
use calico::syncer::{
    parse_revision, update, watch_event, SyncStatus, SyncerEvent, UpdateType, WatchInput,
    WatchState,
};
use serde_json::Value;

fn spec_of(iface: &str) -> Value {
    serde_json::from_str(&format!("{{\"interfaceName\": \"{iface}\"}}")).unwrap()
}

fn labelled(k: &str, v: &str) -> Labels {
    let mut labels: Labels = OrdMap::new();
    labels.insert(k.to_string(), v.to_string());
    labels
}

fn dynamic_object(labels: Option<Labels>) -> ObjectFacts {
    ObjectFacts {
        name: Some("wep1".to_string()),
        namespace: Some("ns1".to_string()),
        resource_version: Some("42".to_string()),
        labels,
        spec: spec_of("cali123"),
    }
}

#[test]
fn update_surfaces_metadata_labels() {
    let obj = dynamic_object(Some(labelled("app", "web")));

    let ev = update(ResourceKind::WorkloadEndpoint, obj, UpdateType::New);

    match ev {
        SyncerEvent::Update {
            labels: got_labels, ..
        } => assert_eq!(got_labels, labelled("app", "web")),
        other => panic!("expected Update, got {other:?}"),
    }
}

#[test]
fn update_defaults_labels_to_empty_map_when_absent() {
    let obj = dynamic_object(None);

    let ev = update(ResourceKind::WorkloadEndpoint, obj, UpdateType::New);

    match ev {
        SyncerEvent::Update {
            labels: got_labels, ..
        } => assert!(got_labels.is_empty()),
        other => panic!("expected Update, got {other:?}"),
    }
}

const WEP: ResourceKind = ResourceKind::WorkloadEndpoint;

fn obj_named(name: &str, rv: &str, iface: &str) -> ObjectFacts {
    ObjectFacts {
        name: Some(name.to_string()),
        namespace: Some("nettest".to_string()),
        resource_version: Some(rv.to_string()),
        labels: None,
        spec: spec_of(iface),
    }
}

fn updates(evs: &[SyncerEvent]) -> Vec<(String, UpdateType)> {
    evs.iter()
        .filter_map(|e| match e {
            SyncerEvent::Update {
                key: Key::Resource { name, .. },
                update_type,
                ..
            } => Some((name.clone(), *update_type)),
            _ => None,
        })
        .collect()
}

fn deleted_names(evs: &[SyncerEvent]) -> Vec<String> {
    updates(evs)
        .into_iter()
        .filter(|(_, t)| *t == UpdateType::Deleted)
        .map(|(n, _)| n)
        .collect()
}

#[test]
fn initial_sync_delivers_snapshot_then_insync_with_no_deletes() {
    let mut st = WatchState::default();
    assert_eq!(
        st.on_event(WEP, WatchInput::Init),
        vec![SyncerEvent::Status(SyncStatus::ResyncInProgress)]
    );
    let a = st.on_event(WEP, WatchInput::InitApply(obj_named("a", "1", "calia")));
    let b = st.on_event(WEP, WatchInput::InitApply(obj_named("b", "1", "calib")));
    let done = st.on_event(WEP, WatchInput::InitDone);

    assert_eq!(updates(&a), vec![("a".to_string(), UpdateType::New)]);
    assert_eq!(updates(&b), vec![("b".to_string(), UpdateType::New)]);
    assert!(
        deleted_names(&done).is_empty(),
        "first sync must not synthesize deletes"
    );
    assert_eq!(done.last(), Some(&SyncerEvent::Status(SyncStatus::InSync)));
}

#[test]
fn relist_emits_synthetic_delete_for_vanished_key() {
    let mut st = WatchState::default();
    st.on_event(WEP, WatchInput::Init);
    st.on_event(WEP, WatchInput::InitApply(obj_named("a", "1", "calia")));
    st.on_event(WEP, WatchInput::InitApply(obj_named("b", "1", "calib")));
    st.on_event(WEP, WatchInput::InitDone);

    // The next list leaves `b` out: it was deleted meanwhile.
    st.on_event(WEP, WatchInput::Init);
    let a2 = st.on_event(WEP, WatchInput::InitApply(obj_named("a", "2", "calia")));
    let done = st.on_event(WEP, WatchInput::InitDone);

    assert_eq!(updates(&a2), vec![("a".to_string(), UpdateType::New)]);
    assert_eq!(
        deleted_names(&done),
        vec!["b".to_string()],
        "the vanished key must be delivered as a delete at InitDone"
    );
    assert_eq!(done.last(), Some(&SyncerEvent::Status(SyncStatus::InSync)));
}

#[test]
fn synthetic_delete_carries_last_known_spec_and_labels() {
    let mut st = WatchState::default();
    let mut b = obj_named("b", "5", "calib");
    b.labels = Some(labelled("app", "web"));

    st.on_event(WEP, WatchInput::Init);
    st.on_event(WEP, WatchInput::InitApply(b));
    st.on_event(WEP, WatchInput::InitDone);

    // The next list leaves `b` out.
    st.on_event(WEP, WatchInput::Init);
    let done = st.on_event(WEP, WatchInput::InitDone);

    let (spec, del_labels) = done
        .iter()
        .find_map(|e| match e {
            SyncerEvent::Update {
                key: Key::Resource { name, .. },
                spec,
                labels,
                update_type: UpdateType::Deleted,
                ..
            } if name == "b" => Some((spec.clone(), labels.clone())),
            _ => None,
        })
        .expect("synthetic delete for b");
    assert_eq!(spec["interfaceName"], "calib");
    assert_eq!(
        del_labels.get(&"app".to_string()).map(String::as_str),
        Some("web")
    );
}

#[test]
fn live_delete_then_relist_does_not_double_delete() {
    let mut st = WatchState::default();
    st.on_event(WEP, WatchInput::Init);
    st.on_event(WEP, WatchInput::InitApply(obj_named("a", "1", "calia")));
    st.on_event(WEP, WatchInput::InitApply(obj_named("b", "1", "calib")));
    st.on_event(WEP, WatchInput::InitDone);

    let d = st.on_event(WEP, WatchInput::Delete(obj_named("b", "3", "calib")));
    assert_eq!(deleted_names(&d), vec!["b".to_string()]);

    // The next list holds `a` only: `b` is gone already.
    st.on_event(WEP, WatchInput::Init);
    st.on_event(WEP, WatchInput::InitApply(obj_named("a", "4", "calia")));
    let done = st.on_event(WEP, WatchInput::InitDone);
    assert!(
        deleted_names(&done).is_empty(),
        "an already-deleted key must not be re-deleted on re-list"
    );
}

#[test]
fn relist_with_all_keys_present_emits_no_deletes() {
    let mut st = WatchState::default();
    st.on_event(WEP, WatchInput::Init);
    st.on_event(WEP, WatchInput::InitApply(obj_named("a", "1", "calia")));
    st.on_event(WEP, WatchInput::InitApply(obj_named("b", "1", "calib")));
    st.on_event(WEP, WatchInput::InitDone);

    st.on_event(WEP, WatchInput::Init);
    st.on_event(WEP, WatchInput::InitApply(obj_named("a", "2", "calia")));
    st.on_event(WEP, WatchInput::InitApply(obj_named("b", "2", "calib")));
    let done = st.on_event(WEP, WatchInput::InitDone);
    assert!(
        deleted_names(&done).is_empty(),
        "keys still present on re-list must survive"
    );
}

#[test]
fn vanished_keys_are_deleted_in_the_order_of_their_names() {
    let mut st = WatchState::default();
    st.on_event(WEP, WatchInput::Init);
    for name in ["c", "a", "b"] {
        st.on_event(WEP, WatchInput::InitApply(obj_named(name, "1", "cali")));
    }
    st.on_event(WEP, WatchInput::InitDone);
    let live = st.on_event(WEP, WatchInput::Apply(obj_named("d", "7", "cali")));
    assert_eq!(updates(&live), vec![("d".to_string(), UpdateType::Updated)]);
    st.on_event(WEP, WatchInput::Init);
    let done = st.on_event(WEP, WatchInput::InitDone);
    assert_eq!(deleted_names(&done), vec!["a", "b", "c", "d"]);
    assert_eq!(done.len(), 5);
}

#[test]
fn revisions_are_read_from_tokens() {
    assert_eq!(parse_revision(&Some("42".to_string())), 42);
    assert_eq!(parse_revision(&Some("+42".to_string())), 42);
    assert_eq!(parse_revision(&Some("x".to_string())), 0);
    assert_eq!(parse_revision(&Some(String::new())), 0);
    assert_eq!(
        parse_revision(&Some("18446744073709551615".to_string())),
        u64::MAX
    );
    assert_eq!(parse_revision(&Some("18446744073709551616".to_string())), 0);
    assert_eq!(parse_revision(&None), 0);
}

#[test]
fn watch_events_leave_out_statuses() {
    assert!(watch_event(SyncerEvent::Status(SyncStatus::InSync)).is_none());
    let ev = update(WEP, obj_named("a", "3", "cali"), UpdateType::Deleted);
    let w = watch_event(ev).unwrap();
    assert_eq!(w.event_type, UpdateType::Deleted);
    assert_eq!(w.kv.revision, Some(3));
    assert_eq!(w.kv.value, spec_of("cali"));
}
