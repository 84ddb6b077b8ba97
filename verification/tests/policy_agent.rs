use calico::cas::CasError;
use calico::model::{Key, ResourceKind};
use calico::ordmap::{Labels, OrdMap};
use calico::policy_agent::{
    gnp_to_network_policy, normalize_cidr, policy_kinds, run_policy_dataplane,
    syncer_update_to_resource, AgentAction, AgentEvent, AgentSpec, ResourceUpdate,
};
use calico::resources::{
    Action, EntityRule, GlobalNetworkPolicySpec, IpPoolSpec, NetworkPolicySpec, NetworkSetSpec,
    PolicyType, ProfileSpec, Rule, TierSpec, WorkloadEndpointSpec,
};
use calico::syncer::{SyncStatus, SyncerEvent, UpdateType};

fn labels(pairs: &[(&str, &str)]) -> Labels {
    let mut m: Labels = OrdMap::new();
    for (k, v) in pairs {
        m.insert(k.to_string(), v.to_string());
    }
    m
}

fn allow_from(selector: &str) -> Rule {
    Rule {
        action: Action::Allow,
        protocol: None,
        source: EntityRule {
            selector: Some(selector.into()),
            ..Default::default()
        },
        destination: EntityRule::default(),
    }
}

#[test]
fn network_policy_maps_to_policy() {
    let spec = NetworkPolicySpec {
        tier: Some("sec".into()),
        order: Some(10.0f64.to_bits()),
        selector: "role == 'db'".into(),
        types: vec![PolicyType::Ingress],
        ingress: vec![allow_from("role == 'web'")],
        ..Default::default()
    };
    let ru = syncer_update_to_resource(
        ResourceKind::NetworkPolicy,
        "np1",
        &None,
        Some(AgentSpec::NetworkPolicy(spec)),
        &vec![],
        labels(&[]),
        false,
    )
    .expect("policy");
    match ru {
        ResourceUpdate::Policy {
            id, spec, remove, ..
        } => {
            assert_eq!(id, "np1");
            assert_eq!(spec.tier.as_deref(), Some("sec"));
            assert_eq!(spec.selector, "role == 'db'");
            assert!(!remove);
        }
        other => panic!("expected Policy, got {other:?}"),
    }
}

#[test]
fn delete_event_sets_remove_true() {
    let spec = NetworkPolicySpec {
        selector: "all()".into(),
        ..Default::default()
    };
    let ru = syncer_update_to_resource(
        ResourceKind::NetworkPolicy,
        "np1",
        &None,
        Some(AgentSpec::NetworkPolicy(spec)),
        &vec![],
        labels(&[]),
        true,
    )
    .expect("policy");
    assert!(matches!(ru, ResourceUpdate::Policy { remove: true, .. }));
}

#[test]
fn profile_maps_to_profile() {
    let spec = ProfileSpec {
        labels_to_apply: labels(&[("stage", "frontend")]),
        ..Default::default()
    };
    let ru = syncer_update_to_resource(
        ResourceKind::Profile,
        "kns.default",
        &None,
        Some(AgentSpec::Profile(spec)),
        &vec![],
        labels(&[]),
        false,
    )
    .expect("profile");
    match ru {
        ResourceUpdate::Profile { id, spec, remove } => {
            assert_eq!(id, "kns.default");
            assert_eq!(
                spec.labels_to_apply.lookup("stage").map(String::as_str),
                Some("frontend")
            );
            assert!(!remove);
        }
        other => panic!("expected Profile, got {other:?}"),
    }
}

#[test]
fn workload_endpoint_id_is_interface_name_with_cidr_normalized_nets_and_event_labels() {
    let spec = WorkloadEndpointSpec {
        node: "node-a".into(),
        orchestrator: "k8s".into(),
        endpoint: "eth0".into(),
        interface_name: "cali123".into(),
        profiles: vec!["kns.default".into()],
        ipnetworks: vec!["10.0.0.5".into(), "10.0.0.0/24".into(), "fe80::1".into()],
        ..Default::default()
    };
    let ru = syncer_update_to_resource(
        ResourceKind::WorkloadEndpoint,
        "node-a-k8s-pod-eth0",
        &None,
        Some(AgentSpec::WorkloadEndpoint(spec)),
        &vec![],
        labels(&[("role", "db")]),
        false,
    )
    .expect("wep");
    match ru {
        ResourceUpdate::WorkloadEndpoint {
            id,
            node,
            labels: lbls,
            profiles,
            ipnets,
            remove,
        } => {
            assert_eq!(id, "cali123", "id must be the interface name");
            assert_eq!(node, "node-a");
            assert_eq!(lbls.lookup("role").map(String::as_str), Some("db"));
            assert_eq!(profiles, vec!["kns.default".to_string()]);
            assert_eq!(
                ipnets,
                vec![
                    "10.0.0.5/32".to_string(),
                    "10.0.0.0/24".to_string(),
                    "fe80::1/128".to_string()
                ]
            );
            assert!(!remove);
        }
        other => panic!("expected WorkloadEndpoint, got {other:?}"),
    }
}

#[test]
fn network_set_maps_with_labels_and_nets() {
    let spec = NetworkSetSpec {
        nets: vec!["192.168.0.0/16".into()],
    };
    let ru = syncer_update_to_resource(
        ResourceKind::NetworkSet,
        "corpnet",
        &None,
        Some(AgentSpec::NetworkSet(spec)),
        &vec![],
        labels(&[("env", "corp")]),
        false,
    )
    .expect("networkset");
    match ru {
        ResourceUpdate::NetworkSet {
            id,
            labels: lbls,
            nets,
            remove,
        } => {
            assert_eq!(id, "corpnet");
            assert_eq!(lbls.lookup("env").map(String::as_str), Some("corp"));
            assert_eq!(nets, vec!["192.168.0.0/16".to_string()]);
            assert!(!remove);
        }
        other => panic!("expected NetworkSet, got {other:?}"),
    }
}

#[test]
fn tier_maps_order() {
    let spec = TierSpec {
        order: Some(100.0f64.to_bits()),
    };
    let ru = syncer_update_to_resource(
        ResourceKind::Tier,
        "default",
        &None,
        Some(AgentSpec::Tier(spec)),
        &vec![],
        labels(&[]),
        false,
    )
    .expect("tier");
    match ru {
        ResourceUpdate::Tier {
            name,
            order,
            remove,
        } => {
            assert_eq!(name, "default");
            assert_eq!(order.map(f64::from_bits), Some(100.0));
            assert!(!remove);
        }
        other => panic!("expected Tier, got {other:?}"),
    }
}

#[test]
fn undeserializable_spec_returns_none() {
    // The specification could not be read.
    assert!(syncer_update_to_resource(
        ResourceKind::NetworkPolicy,
        "np1",
        &None,
        None,
        &vec![],
        labels(&[]),
        false
    )
    .is_none());
}

#[test]
fn unknown_kind_returns_none() {
    assert_eq!(IpPoolSpec::default().cidr, "");
    assert!(syncer_update_to_resource(
        ResourceKind::IpPool,
        "p",
        &None,
        None,
        &vec![],
        labels(&[]),
        false
    )
    .is_none());
}

/// The policy that is handed on. The labels of a namespace are asked for by their prefix.
fn handed_on(
    kind: ResourceKind,
    name: &str,
    namespace: Option<&str>,
    spec: AgentSpec,
) -> (String, NetworkPolicySpec, bool) {
    let forms = vec![
        ("team == 'x'".to_string(), "pcns.team == \"x\"".to_string()),
        ("env == 'prod'".to_string(), "pcns.env == \"prod\"".to_string()),
    ];
    match syncer_update_to_resource(
        kind,
        name,
        &namespace.map(str::to_string),
        Some(spec),
        &forms,
        labels(&[]),
        false,
    ) {
        Some(ResourceUpdate::Policy { id, spec, remove }) => (id, spec, remove),
        other => panic!("expected Policy, got {other:?}"),
    }
}

#[test]
fn namespaced_network_policy_is_scoped_to_its_namespace() {
    let spec = NetworkPolicySpec {
        selector: "role == 'db'".into(),
        types: vec![PolicyType::Ingress],
        ingress: vec![allow_from("role == 'web'")],
        ..Default::default()
    };
    let (id, spec, _) = handed_on(
        ResourceKind::NetworkPolicy,
        "np1",
        Some("prod"),
        AgentSpec::NetworkPolicy(spec),
    );
    assert_eq!(id, "np1");
    assert_eq!(
        spec.selector,
        "(role == 'db') && projectcalico.org/namespace == 'prod'"
    );
    assert_eq!(
        spec.ingress[0].source.selector.as_deref(),
        Some("(projectcalico.org/namespace == 'prod') && (role == 'web')")
    );
}

#[test]
fn global_network_policy_namespace_selector_is_pcns_prefixed_not_own_ns_confined() {
    let spec = GlobalNetworkPolicySpec {
        selector: "all()".into(),
        namespace_selector: "team == 'x'".into(),
        types: vec![PolicyType::Ingress],
        ingress: vec![Rule {
            action: Action::Allow,
            protocol: None,
            source: EntityRule {
                namespace_selector: Some("env == 'prod'".into()),
                ..Default::default()
            },
            destination: EntityRule::default(),
        }],
        ..Default::default()
    };
    let (_, spec, _) = handed_on(
        ResourceKind::GlobalNetworkPolicy,
        "gnp1",
        None,
        AgentSpec::GlobalNetworkPolicy(spec),
    );
    assert_eq!(
        spec.selector,
        "(has(projectcalico.org/namespace)) && pcns.team == \"x\""
    );
    assert_eq!(
        spec.ingress[0].source.selector.as_deref(),
        Some("pcns.env == \"prod\"")
    );
}

#[test]
fn global_network_policy_maps_to_policy() {
    let spec = GlobalNetworkPolicySpec {
        tier: Some("default".into()),
        order: Some(5.0f64.to_bits()),
        selector: "all()".into(),
        namespace_selector: "team == 'x'".into(),
        types: vec![PolicyType::Egress],
        egress: vec![Rule {
            action: Action::Deny,
            protocol: None,
            source: EntityRule::default(),
            destination: EntityRule::default(),
        }],
        pre_dnat: true,
        ..Default::default()
    };
    let (id, spec, remove) = handed_on(
        ResourceKind::GlobalNetworkPolicy,
        "gnp1",
        None,
        AgentSpec::GlobalNetworkPolicy(spec),
    );
    assert_eq!(id, "gnp1");
    assert_eq!(
        spec.selector,
        "(has(projectcalico.org/namespace)) && pcns.team == \"x\""
    );
    assert_eq!(spec.tier.as_deref(), Some("default"));
    assert_eq!(spec.egress.len(), 1);
    assert!(!remove);
}

#[test]
fn global_policies_keep_their_rules() {
    let spec = gnp_to_network_policy(GlobalNetworkPolicySpec {
        selector: "a".into(),
        order: Some(1),
        types: vec![PolicyType::Ingress],
        ingress: vec![allow_from("x"), allow_from("y")],
        ..Default::default()
    });
    assert_eq!(spec.selector, "a");
    assert_eq!(spec.order, Some(1));
    assert_eq!(spec.types, vec![PolicyType::Ingress]);
    assert_eq!(spec.ingress.len(), 2);
    assert_eq!(spec.tier, None);
}

#[test]
fn addresses_are_normalized() {
    assert_eq!(normalize_cidr("10.0.0.1"), "10.0.0.1/32");
    assert_eq!(normalize_cidr("fd00::1"), "fd00::1/128");
    assert_eq!(normalize_cidr("10.0.0.0/8"), "10.0.0.0/8");
    let once = normalize_cidr("10.0.0.1");
    assert_eq!(normalize_cidr(&once), once);
}

#[test]
fn events_become_actions() {
    let kinds: Vec<ResourceKind> = policy_kinds().into_iter().map(|(k, _)| k).collect();
    assert_eq!(kinds.len(), 6);
    assert!(kinds.contains(&ResourceKind::Tier));
    let watched = |ev: SyncerEvent, spec: Option<AgentSpec>| {
        run_policy_dataplane(AgentEvent::Watched {
            item: Ok(ev),
            spec,
            forms: vec![],
        })
    };
    assert_eq!(
        watched(SyncerEvent::Status(SyncStatus::InSync), None),
        AgentAction::MarkInSync
    );
    assert_eq!(
        watched(SyncerEvent::Status(SyncStatus::ResyncInProgress), None),
        AgentAction::Wait
    );
    let update = |key: Key, update_type: UpdateType| SyncerEvent::Update {
        key,
        spec: serde_json::Value::Null,
        revision: 1,
        update_type,
        labels: labels(&[]),
    };
    let tier = || Key::Resource {
        kind: ResourceKind::Tier,
        namespace: None,
        name: "t".into(),
    };
    assert_eq!(
        watched(
            update(tier(), UpdateType::Deleted),
            Some(AgentSpec::Tier(TierSpec { order: None }))
        ),
        AgentAction::Calculate(ResourceUpdate::Tier {
            name: "t".into(),
            order: None,
            remove: true
        })
    );
    assert_eq!(watched(update(tier(), UpdateType::New), None), AgentAction::Wait);
    assert_eq!(
        watched(
            update(Key::IpamHandle { id: "h".into() }, UpdateType::New),
            None
        ),
        AgentAction::Wait
    );
}

#[test]
fn the_agent_flushes_what_it_calculates_and_outlives_bad_input() {
    let lost = || Err("lost".to_string());
    assert_eq!(
        run_policy_dataplane(AgentEvent::Watched {
            item: Err(CasError::Backend("lost".into())),
            spec: None,
            forms: vec![]
        }),
        AgentAction::Wait
    );
    assert_eq!(run_policy_dataplane(AgentEvent::Marked), AgentAction::Flush);
    assert_eq!(
        run_policy_dataplane(AgentEvent::Calculated(Ok(()))),
        AgentAction::Flush
    );
    assert_eq!(
        run_policy_dataplane(AgentEvent::Calculated(lost())),
        AgentAction::Wait
    );
    assert_eq!(
        run_policy_dataplane(AgentEvent::Flushed(Ok(()))),
        AgentAction::Wait
    );
    assert_eq!(
        run_policy_dataplane(AgentEvent::Flushed(lost())),
        AgentAction::Stop
    );
    assert_eq!(run_policy_dataplane(AgentEvent::Ended), AgentAction::Stop);
}
