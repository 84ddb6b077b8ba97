use calico::cas::CasError;
use calico::model::{Key, ResourceKind};
use calico::ordmap::OrdMap;
use calico::resources::{FelixConfigurationSpec, NetworkPolicySpec};
use calico::syncer::{SyncStatus, SyncerEvent, UpdateType};
use calico::syncers::{
    bgp_syncer_kinds, felix_syncer_kinds, node_status_syncer_kinds, to_v1_events,
    tunnel_ip_syncer_kinds, SyncerV1Event,
};
use calico::updateprocessors::{DecodedSpec, PolicyKind, PolicyV1Key, V1Key, V1Value};

fn resource_key(kind: ResourceKind, namespace: Option<&str>, name: &str) -> Key {
    Key::Resource {
        kind,
        namespace: namespace.map(str::to_string),
        name: name.to_string(),
    }
}

fn update_event(
    kind: ResourceKind,
    namespace: Option<&str>,
    name: &str,
    spec: &str,
    update_type: UpdateType,
) -> SyncerEvent {
    SyncerEvent::Update {
        key: resource_key(kind, namespace, name),
        spec: serde_json::from_str(spec).unwrap(),
        revision: 1,
        update_type,
        labels: OrdMap::new(),
    }
}

fn policy(tier: Option<&str>) -> Result<DecodedSpec, String> {
    Ok(DecodedSpec::NetworkPolicy(NetworkPolicySpec {
        tier: tier.map(str::to_string),
        selector: "a == 'b'".into(),
        ..Default::default()
    }))
}

fn felix() -> Result<DecodedSpec, String> {
    Ok(DecodedSpec::FelixConfiguration(FelixConfigurationSpec {
        bpf_enabled: Some(true),
        log_severity_screen: Some("Debug".into()),
        ..Default::default()
    }))
}

fn undecoded() -> Result<DecodedSpec, String> {
    Err("not decoded".to_string())
}

#[test]
fn status_events_pass_through_unchanged() {
    for s in [
        SyncStatus::WaitForDatastore,
        SyncStatus::ResyncInProgress,
        SyncStatus::InSync,
    ] {
        assert_eq!(
            to_v1_events(&SyncerEvent::Status(s), &undecoded()),
            vec![SyncerV1Event::Status(s)]
        );
    }
}

#[test]
fn network_policy_new_becomes_one_v1_update() {
    let ev = update_event(
        ResourceKind::NetworkPolicy,
        Some("ns1"),
        "p",
        r#"{ "selector": "a == 'b'" }"#,
        UpdateType::New,
    );
    let out = to_v1_events(&ev, &policy(None));
    assert_eq!(out.len(), 1);
    match &out[0] {
        SyncerV1Event::Update { kv, update_type } => {
            assert_eq!(*update_type, UpdateType::New);
            match &kv.value {
                V1Value::Policy(p) => {
                    assert_eq!(
                        p.selector,
                        "(a == 'b') && projectcalico.org/namespace == 'ns1'"
                    );
                    assert_eq!(p.tier, "default");
                }
                other => panic!("expected policy value, got {other:?}"),
            }
            assert_eq!(
                kv.key,
                V1Key::Policy(PolicyV1Key {
                    tier: "default".into(),
                    name: "p".into(),
                    namespace: Some("ns1".into()),
                    kind: PolicyKind::NetworkPolicy,
                })
            );
        }
        other => panic!("expected update, got {other:?}"),
    }
}

const FELIX: &str = r#"{ "bpfEnabled": true, "logSeverityScreen": "Debug" }"#;

#[test]
fn felix_configuration_new_fans_out_to_one_update_per_set_field() {
    let ev = update_event(
        ResourceKind::FelixConfiguration,
        None,
        "default",
        FELIX,
        UpdateType::New,
    );
    let out = to_v1_events(&ev, &felix());
    assert_eq!(out.len(), 2, "two set fields -> two v1 updates");
    assert!(out.iter().all(|e| matches!(
        e,
        SyncerV1Event::Update {
            update_type: UpdateType::New,
            ..
        }
    )));
    let keys: Vec<&V1Key> = out
        .iter()
        .map(|e| match e {
            SyncerV1Event::Update { kv, .. } => &kv.key,
            other => panic!("expected update, got {other:?}"),
        })
        .collect();
    assert!(keys.contains(&&V1Key::Config {
        host: None,
        name: "BPFEnabled".into(),
    }));
    assert!(keys.contains(&&V1Key::Config {
        host: None,
        name: "LogSeverityScreen".into(),
    }));
}

#[test]
fn network_policy_delete_becomes_one_v1_delete_with_correct_key() {
    let ev = update_event(
        ResourceKind::NetworkPolicy,
        Some("ns1"),
        "p",
        r#"{ "tier": "security", "selector": "a == 'b'" }"#,
        UpdateType::Deleted,
    );
    let out = to_v1_events(&ev, &policy(Some("security")));
    assert_eq!(
        out,
        vec![SyncerV1Event::Delete {
            key: V1Key::Policy(PolicyV1Key {
                tier: "security".into(),
                name: "p".into(),
                namespace: Some("ns1".into()),
                kind: PolicyKind::NetworkPolicy,
            }),
        }]
    );
}

#[test]
fn felix_configuration_delete_removes_every_config_key_it_produced() {
    let ev = update_event(
        ResourceKind::FelixConfiguration,
        None,
        "default",
        FELIX,
        UpdateType::Deleted,
    );
    let out = to_v1_events(&ev, &felix());
    assert_eq!(out.len(), 2);
    assert!(out
        .iter()
        .all(|e| matches!(e, SyncerV1Event::Delete { .. })));
}

#[test]
fn processorless_kind_is_skipped_not_errored() {
    for ut in [UpdateType::New, UpdateType::Updated, UpdateType::Deleted] {
        let ev = update_event(ResourceKind::Tier, None, "default", "{}", ut);
        assert!(
            to_v1_events(&ev, &undecoded()).is_empty(),
            "processor-less kind must be skipped for {ut:?}"
        );
    }
}

#[test]
fn undeserializable_spec_is_skipped_not_errored() {
    let ev = update_event(
        ResourceKind::IpPool,
        None,
        "p",
        r#"{ "cidr": 12345 }"#,
        UpdateType::New,
    );
    assert!(to_v1_events(&ev, &Err("cidr must be a string".to_string())).is_empty());
}

fn run_stream(
    events: Vec<Result<(SyncerEvent, Result<DecodedSpec, String>), CasError>>,
) -> Vec<Result<SyncerV1Event, CasError>> {
    events
        .into_iter()
        .flat_map(|item| match item {
            Ok((ev, spec)) => to_v1_events(&ev, &spec).into_iter().map(Ok).collect(),
            Err(e) => vec![Err(e)],
        })
        .collect()
}

#[test]
fn stream_transforms_status_updates_and_skips_and_propagates_errors() {
    let events = vec![
        Ok((
            SyncerEvent::Status(SyncStatus::ResyncInProgress),
            undecoded(),
        )),
        Ok((
            update_event(
                ResourceKind::NetworkPolicy,
                Some("ns1"),
                "p",
                r#"{ "selector": "a == 'b'" }"#,
                UpdateType::New,
            ),
            policy(None),
        )),
        Ok((
            update_event(ResourceKind::Tier, None, "t", "{}", UpdateType::New),
            undecoded(),
        )),
        Ok((SyncerEvent::Status(SyncStatus::InSync), undecoded())),
        Err(CasError::Backend("boom".into())),
    ];
    let out = run_stream(events);

    assert_eq!(out.len(), 4, "5 inputs: 1 skipped, 1 error passed through");
    assert_eq!(
        out[0].as_ref().unwrap(),
        &SyncerV1Event::Status(SyncStatus::ResyncInProgress)
    );
    assert!(matches!(
        out[1].as_ref().unwrap(),
        SyncerV1Event::Update {
            update_type: UpdateType::New,
            ..
        }
    ));
    assert_eq!(
        out[2].as_ref().unwrap(),
        &SyncerV1Event::Status(SyncStatus::InSync)
    );
    assert!(matches!(out[3], Err(CasError::Backend(_))));
}

#[test]
fn syncer_kind_sets_match_expected() {
    let felix: Vec<ResourceKind> = felix_syncer_kinds().into_iter().map(|(k, _)| k).collect();
    assert_eq!(
        felix,
        vec![
            ResourceKind::NetworkPolicy,
            ResourceKind::GlobalNetworkPolicy,
            ResourceKind::Profile,
            ResourceKind::WorkloadEndpoint,
            ResourceKind::HostEndpoint,
            ResourceKind::IpPool,
            ResourceKind::FelixConfiguration,
            ResourceKind::Node,
            ResourceKind::NetworkSet,
            ResourceKind::GlobalNetworkSet,
            ResourceKind::Tier,
        ]
    );
    assert!(felix_syncer_kinds().iter().all(|(_, ns)| ns.is_none()));

    let bgp: Vec<ResourceKind> = bgp_syncer_kinds().into_iter().map(|(k, _)| k).collect();
    assert_eq!(
        bgp,
        vec![
            ResourceKind::BgpConfiguration,
            ResourceKind::BgpPeer,
            ResourceKind::Node,
            ResourceKind::IpPool,
        ]
    );

    let tunnel: Vec<ResourceKind> = tunnel_ip_syncer_kinds()
        .into_iter()
        .map(|(k, _)| k)
        .collect();
    assert_eq!(tunnel, vec![ResourceKind::Node, ResourceKind::IpPool]);

    let node_status: Vec<ResourceKind> = node_status_syncer_kinds()
        .into_iter()
        .map(|(k, _)| k)
        .collect();
    assert_eq!(node_status, vec![ResourceKind::Node]);
}
