use calico::model::{Key, ResourceKind};
use calico::resources::{
    Action, EncapMode, EntityRule, FelixConfigurationSpec, IpPoolSpec, NetworkPolicySpec,
    PolicyType, Protocol, Rule, WorkloadEndpointSpec, WorkloadPort,
};
use calico::updateprocessors::{
    is_ipv6, process, process_felix_configuration, process_ip_pool, process_keys,
    process_network_policy, process_workload_endpoint, protocol_to_v1, rule_action,
    rule_endpoint_selector, tier_or_default, DecodedSpec, ProcessError, V1Key, V1Value,
};

fn some(s: &str) -> Option<String> {
    Some(s.to_string())
}

#[test]
fn np_empty_selector_gets_just_namespace_selector_and_default_tier() {
    let spec = NetworkPolicySpec::default();
    let (key, val) = process_network_policy(&some("namespace1"), "empty", &spec).unwrap();
    assert_eq!(key.tier, "default");
    assert_eq!(key.namespace.as_deref(), Some("namespace1"));
    assert_eq!(val.tier, "default");
    assert_eq!(val.selector, "projectcalico.org/namespace == 'namespace1'");
}

#[test]
fn np_nonempty_selector_is_combined_with_namespace_selector() {
    let spec = NetworkPolicySpec {
        selector: "mylabel == 'selectme'".into(),
        ..Default::default()
    };
    let (_key, val) = process_network_policy(&some("namespace2"), "minimal", &spec).unwrap();
    assert_eq!(
        val.selector,
        "(mylabel == 'selectme') && projectcalico.org/namespace == 'namespace2'"
    );
}

#[test]
fn np_explicit_tier_is_preserved() {
    let spec = NetworkPolicySpec {
        tier: Some("security".into()),
        ..Default::default()
    };
    let (key, val) = process_network_policy(&some("ns"), "p", &spec).unwrap();
    assert_eq!(key.tier, "security");
    assert_eq!(val.tier, "security");
}

#[test]
fn np_missing_namespace_and_name_error() {
    let spec = NetworkPolicySpec::default();
    assert_eq!(
        process_network_policy(&None, "p", &spec),
        Err(ProcessError::MissingKeyField("namespace"))
    );
    assert_eq!(
        process_network_policy(&some(""), "p", &spec),
        Err(ProcessError::MissingKeyField("namespace"))
    );
    assert_eq!(
        process_network_policy(&some("ns"), "", &spec),
        Err(ProcessError::MissingKeyField("name"))
    );
}

#[test]
fn np_types_and_action_and_protocol_converted() {
    let spec = NetworkPolicySpec {
        types: vec![PolicyType::Ingress, PolicyType::Egress],
        ingress: vec![Rule {
            action: Action::Allow,
            protocol: Some(Protocol::Named("TCP".into())),
            source: EntityRule::default(),
            destination: EntityRule {
                ports: vec![5432],
                ..Default::default()
            },
        }],
        egress: vec![Rule {
            action: Action::Pass,
            protocol: None,
            source: EntityRule::default(),
            destination: EntityRule::default(),
        }],
        ..Default::default()
    };
    let (_k, val) = process_network_policy(&some("ns"), "p", &spec).unwrap();
    assert_eq!(val.types, vec!["ingress", "egress"]);
    assert_eq!(val.inbound_rules[0].action, "allow");
    assert_eq!(val.inbound_rules[0].protocol.as_deref(), Some("tcp"));
    assert_eq!(val.inbound_rules[0].dst_ports, vec![5432]);
    assert_eq!(val.outbound_rules[0].action, "next-tier");
}

#[test]
fn rule_peer_selector_scoped_to_policy_namespace() {
    let spec = NetworkPolicySpec {
        ingress: vec![Rule {
            action: Action::Allow,
            protocol: None,
            source: EntityRule {
                selector: Some("role == 'client'".into()),
                ..Default::default()
            },
            destination: EntityRule::default(),
        }],
        ..Default::default()
    };
    let (_k, val) = process_network_policy(&some("ns1"), "p", &spec).unwrap();
    assert_eq!(
        val.inbound_rules[0].src_selector,
        "(projectcalico.org/namespace == 'ns1') && (role == 'client')"
    );
    assert_eq!(val.inbound_rules[0].dst_selector, "");
}

#[test]
fn rule_namespace_selector_simplified_translation() {
    let all = EntityRule {
        namespace_selector: Some("all()".into()),
        ..Default::default()
    };
    assert_eq!(
        rule_endpoint_selector(&all, &some("ns1")),
        "has(projectcalico.org/namespace)"
    );
    let global = EntityRule {
        namespace_selector: Some("global()".into()),
        ..Default::default()
    };
    assert_eq!(
        rule_endpoint_selector(&global, &some("ns1")),
        "!has(projectcalico.org/namespace)"
    );
    let both = EntityRule {
        namespace_selector: Some("env == 'prod'".into()),
        selector: Some("role == 'db'".into()),
        ..Default::default()
    };
    assert_eq!(
        rule_endpoint_selector(&both, &some("ns1")),
        "(env == 'prod') && (role == 'db')"
    );
}

#[test]
fn ippool_maps_nat_outgoing_to_masquerade_and_modes() {
    let spec = IpPoolSpec {
        cidr: "192.168.0.0/16".into(),
        ipip_mode: EncapMode::CrossSubnet,
        vxlan_mode: EncapMode::Always,
        nat_outgoing: true,
        disabled: false,
        disable_bgp_export: true,
        ..Default::default()
    };
    let (key, val) = process_ip_pool(&spec);
    assert_eq!(key.cidr, "192.168.0.0/16");
    assert!(val.masquerade);
    assert!(val.ipam);
    assert_eq!(val.ipip_mode, EncapMode::CrossSubnet);
    assert_eq!(val.ipip_interface, "tunl0");
    assert_eq!(val.vxlan_mode, EncapMode::Always);
    assert!(val.disable_bgp_export);
}

#[test]
fn ippool_never_ipip_has_no_tunnel_and_disabled_disables_ipam() {
    let spec = IpPoolSpec {
        cidr: "10.0.0.0/16".into(),
        disabled: true,
        ..Default::default()
    };
    let (_k, val) = process_ip_pool(&spec);
    assert_eq!(val.ipip_interface, "");
    assert!(!val.ipam);
    assert!(val.disabled);
    assert!(!val.masquerade);
}

#[test]
fn wep_maps_fields_and_splits_nets_by_version() {
    let spec = WorkloadEndpointSpec {
        node: "node-1".into(),
        orchestrator: "k8s".into(),
        endpoint: "eth0".into(),
        interface_name: "cali123".into(),
        mac: Some("ee:ee:ee:ee:ee:ee".into()),
        ipnetworks: vec!["10.0.0.5/32".into(), "fd00::5/128".into()],
        profiles: vec!["kns.default".into()],
        ports: vec![
            WorkloadPort {
                name: "http".into(),
                port: 80,
                protocol: "TCP".into(),
            },
            WorkloadPort {
                name: String::new(),
                port: 90,
                protocol: "TCP".into(),
            },
        ],
        service_account_name: Some("sa-1".into()),
        ..Default::default()
    };
    let (key, val) = process_workload_endpoint(&some("default"), "wep-1", &spec)
        .unwrap()
        .unwrap();
    assert_eq!(key.hostname, "node-1");
    assert_eq!(key.namespace.as_deref(), Some("default"));
    assert_eq!(val.state, "active");
    assert_eq!(val.name, "cali123");
    assert_eq!(val.ipv4_nets, vec!["10.0.0.5/32"]);
    assert_eq!(val.ipv6_nets, vec!["fd00::5/128"]);
    assert_eq!(val.profile_ids, vec!["kns.default"]);
    // Only the port with a name is kept, its protocol in lower case.
    assert_eq!(val.ports.len(), 1);
    assert_eq!(val.ports[0].protocol, "tcp");
    assert_eq!(
        val.labels
            .lookup("projectcalico.org/serviceaccount")
            .map(String::as_str),
        Some("sa-1")
    );
}

#[test]
fn wep_with_no_ipnetworks_is_filtered_out() {
    let spec = WorkloadEndpointSpec {
        node: "node-1".into(),
        orchestrator: "k8s".into(),
        endpoint: "eth0".into(),
        interface_name: "cali123".into(),
        ..Default::default()
    };
    assert_eq!(
        process_workload_endpoint(&some("default"), "wep-1", &spec).unwrap(),
        None
    );
}

#[test]
fn felixconfig_default_flattens_set_fields_only() {
    let spec = FelixConfigurationSpec {
        bpf_enabled: Some(true),
        log_severity_screen: Some("Warning".into()),
        interface_prefix: None,
        default_endpoint_to_host_action: Some(String::new()),
    };
    let entries = process_felix_configuration("default", &spec);
    assert_eq!(entries.len(), 2);
    assert!(entries.iter().all(|e| e.host.is_none()));
    assert!(entries
        .iter()
        .any(|e| e.name == "BPFEnabled" && e.value == "true"));
    assert!(entries
        .iter()
        .any(|e| e.name == "LogSeverityScreen" && e.value == "Warning"));
    // Fields that are unset or empty are left out.
    assert!(entries.iter().all(|e| e.name != "InterfacePrefix"));
    assert!(entries
        .iter()
        .all(|e| e.name != "DefaultEndpointToHostAction"));
}

#[test]
fn felixconfig_per_node_name_sets_host() {
    let spec = FelixConfigurationSpec {
        interface_prefix: Some("eni".into()),
        ..Default::default()
    };
    let entries = process_felix_configuration("node.worker-1", &spec);
    assert_eq!(entries.len(), 1);
    assert_eq!(entries[0].host.as_deref(), Some("worker-1"));
    assert_eq!(entries[0].name, "InterfacePrefix");
    assert_eq!(entries[0].value, "eni");
}

#[test]
fn felixconfig_selector_scoped_name_is_not_decomposed() {
    let spec = FelixConfigurationSpec {
        bpf_enabled: Some(true),
        ..Default::default()
    };
    assert!(process_felix_configuration("my-scoped-config", &spec).is_empty());
}

#[test]
fn felixconfig_empty_spec_yields_nothing() {
    assert!(
        process_felix_configuration("default", &FelixConfigurationSpec::default()).is_empty()
    );
}

#[test]
fn dispatch_network_policy_from_json() {
    let key = Key::Resource {
        kind: ResourceKind::NetworkPolicy,
        namespace: Some("ns1".into()),
        name: "p".into(),
    };
    let spec = DecodedSpec::NetworkPolicy(NetworkPolicySpec {
        selector: "a == 'b'".into(),
        ..Default::default()
    });
    let out = process(ResourceKind::NetworkPolicy, &key, &Ok(spec)).unwrap();
    assert_eq!(out.len(), 1);
    match &out[0].value {
        V1Value::Policy(p) => {
            assert_eq!(
                p.selector,
                "(a == 'b') && projectcalico.org/namespace == 'ns1'"
            )
        }
        _ => panic!("expected policy value"),
    }
}

fn felix_spec() -> DecodedSpec {
    DecodedSpec::FelixConfiguration(FelixConfigurationSpec {
        bpf_enabled: Some(true),
        log_severity_screen: Some("Debug".into()),
        ..Default::default()
    })
}

#[test]
fn dispatch_felixconfig_flattens() {
    let key = Key::Resource {
        kind: ResourceKind::FelixConfiguration,
        namespace: None,
        name: "default".into(),
    };
    let out = process(ResourceKind::FelixConfiguration, &key, &Ok(felix_spec())).unwrap();
    assert_eq!(out.len(), 2);
    assert!(out.iter().any(|kv| kv.key
        == V1Key::Config {
            host: None,
            name: "BPFEnabled".into()
        }));
}

#[test]
fn dispatch_wep_with_no_ips_yields_empty() {
    let key = Key::Resource {
        kind: ResourceKind::WorkloadEndpoint,
        namespace: Some("default".into()),
        name: "wep".into(),
    };
    let spec = DecodedSpec::WorkloadEndpoint(WorkloadEndpointSpec {
        node: "n1".into(),
        orchestrator: "k8s".into(),
        endpoint: "eth0".into(),
        interface_name: "cali1".into(),
        ..Default::default()
    });
    let out = process(ResourceKind::WorkloadEndpoint, &key, &Ok(spec)).unwrap();
    assert!(out.is_empty());
}

#[test]
fn dispatch_unsupported_kind_errors() {
    let key = Key::Resource {
        kind: ResourceKind::Tier,
        namespace: None,
        name: "default".into(),
    };
    assert_eq!(
        process(ResourceKind::Tier, &key, &Err("not decoded".to_string())),
        Err(ProcessError::UnsupportedKind(ResourceKind::Tier))
    );
}

#[test]
fn keys_are_those_of_the_pairs() {
    let key = Key::Resource {
        kind: ResourceKind::FelixConfiguration,
        namespace: None,
        name: "default".into(),
    };
    let pairs = process(ResourceKind::FelixConfiguration, &key, &Ok(felix_spec())).unwrap();
    let keys = process_keys(ResourceKind::FelixConfiguration, &key, &Ok(felix_spec())).unwrap();
    let of_pairs: Vec<V1Key> = pairs.into_iter().map(|kv| kv.key).collect();
    assert_eq!(keys, of_pairs);
}

#[test]
fn errors_of_processing_in_words() {
    let key = Key::Resource {
        kind: ResourceKind::IpPool,
        namespace: None,
        name: "p".into(),
    };
    let e = process(ResourceKind::IpPool, &key, &Err("bad cidr".to_string())).unwrap_err();
    assert_eq!(e, ProcessError::Deserialize("bad cidr".to_string()));
    assert!(e.text().contains("bad cidr"));
    assert!(ProcessError::MissingKeyField("name").text().contains("name"));
    assert!(ProcessError::UnsupportedKind(ResourceKind::Tier)
        .text()
        .contains("Tier"));
    let odd = process(
        ResourceKind::NetworkPolicy,
        &Key::Block {
            cidr: "10.0.0.0/26".into(),
        },
        &Ok(DecodedSpec::NetworkPolicy(NetworkPolicySpec::default())),
    );
    assert!(odd.is_err());
}

#[test]
fn small_conversions() {
    assert_eq!(rule_action(Action::Deny), "deny");
    assert_eq!(rule_action(Action::Log), "log");
    assert_eq!(protocol_to_v1(&Protocol::Number(58)), "58");
    assert_eq!(protocol_to_v1(&Protocol::Named("ICMPv6".into())), "icmpv6");
    assert_eq!(tier_or_default(&some("")), "default");
    assert_eq!(tier_or_default(&None), "default");
    assert!(is_ipv6("fd00::1/128"));
    assert!(!is_ipv6("10.0.0.1/32"));
}
