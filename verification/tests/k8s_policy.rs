use calico::k8s_policy::{
    build_rules, grouped_ports, k8s_network_policy_spec_to_calico, k8s_network_policy_to_calico,
    peer_fields, port_kind, selector_to_calico, IpBlock, K8sNetworkPolicySpec, LabelRequirement,
    LabelSelector, PolicyPeer, PolicyPort, PolicyRuleFacts, PortKind, PortRef, SelectorKind,
};
use calico::ordmap::{Labels, OrdMap};
use calico::resources::{Action, EntityRule, PolicyType, Protocol};
use k8s_openapi::api::networking::v1 as net;
use k8s_openapi::apimachinery::pkg::apis::meta::v1 as meta;
use k8s_openapi::apimachinery::pkg::util::intstr::IntOrString;

fn selector(s: meta::LabelSelector) -> LabelSelector {
    LabelSelector {
        match_labels: s.match_labels.map(|m| {
            let mut labels: Labels = OrdMap::new();
            for (k, v) in m {
                labels.insert(k, v);
            }
            labels
        }),
        match_expressions: s.match_expressions.map(|l| {
            l.into_iter()
                .map(|e| LabelRequirement {
                    key: e.key,
                    operator: e.operator,
                    values: e.values,
                })
                .collect()
        }),
    }
}

fn peer(p: net::NetworkPolicyPeer) -> PolicyPeer {
    PolicyPeer {
        ip_block: p.ip_block.map(|b| IpBlock {
            cidr: b.cidr,
            except: b.except,
        }),
        pod_selector: p.pod_selector.map(selector),
        namespace_selector: p.namespace_selector.map(selector),
    }
}

fn port(p: net::NetworkPolicyPort) -> PolicyPort {
    PolicyPort {
        protocol: p.protocol,
        port: p.port.map(|p| match p {
            IntOrString::Int(i) => PortRef::Int(i),
            IntOrString::String(s) => PortRef::Named(s),
        }),
        end_port: p.end_port,
    }
}

fn rule(
    peers: Option<Vec<net::NetworkPolicyPeer>>,
    ports: Option<Vec<net::NetworkPolicyPort>>,
) -> PolicyRuleFacts {
    PolicyRuleFacts {
        peers: peers.map(|l| l.into_iter().map(peer).collect()),
        ports: ports.map(|l| l.into_iter().map(port).collect()),
    }
}

fn np(json: &str) -> Option<K8sNetworkPolicySpec> {
    let policy: net::NetworkPolicy = serde_json::from_str(json).expect("valid NetworkPolicy JSON");
    policy.spec.map(|s| K8sNetworkPolicySpec {
        pod_selector: s.pod_selector.map(selector),
        ingress: s
            .ingress
            .map(|l| l.into_iter().map(|r| rule(r.from, r.ports)).collect()),
        egress: s
            .egress
            .map(|l| l.into_iter().map(|r| rule(r.to, r.ports)).collect()),
        policy_types: s.policy_types,
    })
}

#[test]
fn basic_ingress_policy() {
    let policy = np(r#"{
        "metadata": {"name": "test.policy", "namespace": "default"},
        "spec": {
            "podSelector": {"matchLabels": {"label": "value", "label2": "value2"}},
            "ingress": [{
                "ports": [{"port": 80}, {"port": "foo"}],
                "from": [{"podSelector": {"matchLabels": {"k": "v", "k2": "v2"}}}]
            }],
            "policyTypes": ["Ingress"]
        }
    }"#);
    let spec = k8s_network_policy_to_calico(&policy);

    assert_eq!(spec.order.map(f64::from_bits), Some(1000.0));
    assert_eq!(spec.tier.as_deref(), Some("default"));
    assert_eq!(
        spec.selector,
        "projectcalico.org/orchestrator == 'k8s' && label == 'value' && label2 == 'value2'"
    );
    assert_eq!(spec.types, vec![PolicyType::Ingress]);
    assert!(spec.egress.is_empty());
    assert_eq!(spec.ingress.len(), 1);
    let r = &spec.ingress[0];
    assert_eq!(r.action, Action::Allow);
    assert_eq!(r.protocol, Some(Protocol::Named("TCP".into())));
    assert_eq!(
        r.source.selector.as_deref(),
        Some("projectcalico.org/orchestrator == 'k8s' && k == 'v' && k2 == 'v2'")
    );
    assert!(r.source.namespace_selector.is_none());
    assert_eq!(r.destination.ports, vec![80]);
}

#[test]
fn empty_pod_selector_is_orchestrator_scoped() {
    let policy = np(r#"{
        "metadata": {"name": "p", "namespace": "default"},
        "spec": {"podSelector": {}, "policyTypes": ["Ingress"]}
    }"#);
    let spec = k8s_network_policy_to_calico(&policy);
    assert_eq!(spec.selector, "projectcalico.org/orchestrator == 'k8s'");
}

#[test]
fn rule_with_no_ports_allows_all_ports() {
    let policy = np(r#"{
        "metadata": {"name": "p", "namespace": "default"},
        "spec": {
            "podSelector": {},
            "ingress": [{"from": [{"podSelector": {"matchLabels": {"k": "v"}}}]}],
            "policyTypes": ["Ingress"]
        }
    }"#);
    let spec = k8s_network_policy_to_calico(&policy);
    assert_eq!(spec.ingress.len(), 1);
    assert!(spec.ingress[0].protocol.is_none());
    assert!(spec.ingress[0].destination.ports.is_empty());
    assert_eq!(
        spec.ingress[0].source.selector.as_deref(),
        Some("projectcalico.org/orchestrator == 'k8s' && k == 'v'")
    );
}

#[test]
fn namespace_selector_is_raw_and_separate() {
    let policy = np(r#"{
        "metadata": {"name": "p", "namespace": "default"},
        "spec": {
            "podSelector": {},
            "ingress": [{"from": [{"namespaceSelector": {
                "matchLabels": {"namespaceFoo": "bar", "namespaceRole": "dev"}
            }}]}],
            "policyTypes": ["Ingress"]
        }
    }"#);
    let spec = k8s_network_policy_to_calico(&policy);
    let src = &spec.ingress[0].source;
    assert_eq!(
        src.namespace_selector.as_deref(),
        Some("namespaceFoo == 'bar' && namespaceRole == 'dev'")
    );
    assert!(!src.namespace_selector.as_deref().unwrap().contains("pcns."));
    assert_eq!(
        src.selector.as_deref(),
        Some("projectcalico.org/orchestrator == 'k8s'")
    );
}

#[test]
fn empty_namespace_selector_is_all() {
    let policy = np(r#"{
        "metadata": {"name": "p", "namespace": "default"},
        "spec": {
            "podSelector": {},
            "ingress": [{"from": [{"namespaceSelector": {}}]}],
            "policyTypes": ["Ingress"]
        }
    }"#);
    let spec = k8s_network_policy_to_calico(&policy);
    assert_eq!(
        spec.ingress[0].source.namespace_selector.as_deref(),
        Some("all()")
    );
}

#[test]
fn ip_block_maps_to_nets_and_not_nets() {
    let policy = np(r#"{
        "metadata": {"name": "p", "namespace": "default"},
        "spec": {
            "podSelector": {},
            "ingress": [{"from": [{"ipBlock": {
                "cidr": "192.168.0.0/16",
                "except": ["192.168.3.0/24", "192.168.4.0/24"]
            }}]}],
            "policyTypes": ["Ingress"]
        }
    }"#);
    let spec = k8s_network_policy_to_calico(&policy);
    let src = &spec.ingress[0].source;
    assert_eq!(src.nets, vec!["192.168.0.0/16".to_string()]);
    assert_eq!(
        src.not_nets,
        vec!["192.168.3.0/24".to_string(), "192.168.4.0/24".to_string()]
    );
    assert!(src.selector.is_none());
    assert!(src.namespace_selector.is_none());
}

#[test]
fn egress_ip_block_lands_in_destination() {
    let policy = np(r#"{
        "metadata": {"name": "p", "namespace": "default"},
        "spec": {
            "podSelector": {},
            "egress": [{"to": [{"ipBlock": {"cidr": "10.10.0.0/16"}}]}],
            "policyTypes": ["Egress"]
        }
    }"#);
    let spec = k8s_network_policy_to_calico(&policy);
    assert_eq!(spec.types, vec![PolicyType::Egress]);
    let dst = &spec.egress[0].destination;
    assert_eq!(dst.nets, vec!["10.10.0.0/16".to_string()]);
    assert!(dst.not_nets.is_empty());
}

#[test]
fn ports_and_protocol_mapped() {
    let policy = np(r#"{
        "metadata": {"name": "p", "namespace": "default"},
        "spec": {
            "podSelector": {},
            "egress": [{
                "ports": [{"port": 53, "protocol": "UDP"}],
                "to": [{"podSelector": {"matchLabels": {"app": "dns"}}}]
            }],
            "policyTypes": ["Egress"]
        }
    }"#);
    let spec = k8s_network_policy_to_calico(&policy);
    let r = &spec.egress[0];
    assert_eq!(r.protocol, Some(Protocol::Named("UDP".into())));
    assert_eq!(r.destination.ports, vec![53]);
    assert_eq!(
        r.destination.selector.as_deref(),
        Some("projectcalico.org/orchestrator == 'k8s' && app == 'dns'")
    );
}

#[test]
fn absent_policy_types_default_to_ingress_only() {
    let policy = np(r#"{
        "metadata": {"name": "p", "namespace": "default"},
        "spec": {
            "podSelector": {},
            "egress": [{"to": [{"ipBlock": {"cidr": "10.0.0.0/8"}}]}]
        }
    }"#);
    let spec = k8s_network_policy_to_calico(&policy);
    assert_eq!(spec.types, vec![PolicyType::Ingress]);
    assert_eq!(spec.egress.len(), 1);
}

#[test]
fn both_policy_types_yield_both() {
    let policy = np(r#"{
        "metadata": {"name": "p", "namespace": "default"},
        "spec": {"podSelector": {}, "policyTypes": ["Ingress", "Egress"]}
    }"#);
    let spec = k8s_network_policy_to_calico(&policy);
    assert_eq!(spec.types, vec![PolicyType::Ingress, PolicyType::Egress]);
}

#[test]
fn match_expressions_render() {
    let policy = np(r#"{
        "metadata": {"name": "p", "namespace": "default"},
        "spec": {
            "podSelector": {"matchExpressions": [
                {"key": "env", "operator": "In", "values": ["prod", "staging"]},
                {"key": "temp", "operator": "DoesNotExist"}
            ]},
            "policyTypes": ["Ingress"]
        }
    }"#);
    let spec = k8s_network_policy_to_calico(&policy);
    assert_eq!(
        spec.selector,
        "projectcalico.org/orchestrator == 'k8s' && env in { 'prod', 'staging' } && ! has(temp)"
    );
}

#[test]
fn only_allow_rules_are_emitted() {
    let policy = np(r#"{
        "metadata": {"name": "p", "namespace": "default"},
        "spec": {
            "podSelector": {"matchLabels": {"app": "db"}},
            "ingress": [
                {"from": [{"podSelector": {"matchLabels": {"app": "web"}}}]},
                {"from": [{"ipBlock": {"cidr": "10.0.0.0/8"}}]}
            ],
            "egress": [{"to": [{"namespaceSelector": {}}]}],
            "policyTypes": ["Ingress", "Egress"]
        }
    }"#);
    let spec = k8s_network_policy_to_calico(&policy);
    assert!(!spec.ingress.is_empty());
    assert!(!spec.egress.is_empty());
    for r in spec.ingress.iter().chain(spec.egress.iter()) {
        assert_eq!(r.action, Action::Allow, "no explicit deny is emitted");
    }
}

#[test]
fn empty_from_allows_all_sources() {
    let policy = np(r#"{
        "metadata": {"name": "p", "namespace": "default"},
        "spec": {
            "podSelector": {},
            "ingress": [{"ports": [{"port": 443}]}],
            "policyTypes": ["Ingress"]
        }
    }"#);
    let spec = k8s_network_policy_to_calico(&policy);
    assert_eq!(spec.ingress.len(), 1);
    let r = &spec.ingress[0];
    assert_eq!(r.source, EntityRule::default());
    assert_eq!(r.destination.ports, vec![443]);
}

#[test]
fn one_rule_per_peer() {
    let policy = np(r#"{
        "metadata": {"name": "p", "namespace": "default"},
        "spec": {
            "podSelector": {},
            "ingress": [{"from": [
                {"podSelector": {"matchLabels": {"a": "1"}}},
                {"podSelector": {"matchLabels": {"b": "2"}}}
            ]}],
            "policyTypes": ["Ingress"]
        }
    }"#);
    let spec = k8s_network_policy_to_calico(&policy);
    assert_eq!(spec.ingress.len(), 2);
}

fn tcp(port: Option<PortRef>) -> PolicyPort {
    PolicyPort {
        protocol: None,
        port,
        end_port: None,
    }
}

#[test]
fn unsupported_ports_widen_nothing() {
    assert_eq!(port_kind(&tcp(Some(PortRef::Int(80)))), PortKind::Number(80));
    assert_eq!(port_kind(&tcp(None)), PortKind::Absent);
    assert_eq!(
        port_kind(&tcp(Some(PortRef::Named("http".into())))),
        PortKind::Unsupported
    );
    assert_eq!(
        port_kind(&tcp(Some(PortRef::Int(70000)))),
        PortKind::Unsupported
    );
    // A port that cannot be expressed alone allows nothing, least of all every port.
    assert!(grouped_ports(&vec![tcp(Some(PortRef::Named("http".into())))]).is_empty());
    assert!(build_rules(
        &vec![],
        &vec![tcp(Some(PortRef::Named("http".into())))],
        true
    )
    .is_empty());
}

#[test]
fn ports_are_grouped_by_protocol() {
    let udp = |n: i32| PolicyPort {
        protocol: Some("UDP".into()),
        port: Some(PortRef::Int(n)),
        end_port: None,
    };
    let groups = grouped_ports(&vec![
        tcp(Some(PortRef::Int(80))),
        udp(53),
        tcp(Some(PortRef::Int(443))),
    ]);
    assert_eq!(
        groups,
        vec![
            (Some(Protocol::Named("TCP".into())), vec![80, 443]),
            (Some(Protocol::Named("UDP".into())), vec![53]),
        ]
    );
    // A port without a number stands for all ports of its protocol.
    let all = grouped_ports(&vec![tcp(Some(PortRef::Int(80))), tcp(None)]);
    assert_eq!(all, vec![(Some(Protocol::Named("TCP".into())), vec![])]);
    assert_eq!(grouped_ports(&vec![]), vec![(None, vec![])]);
}

#[test]
fn selectors_and_peers() {
    let exp = |operator: &str, values: Option<Vec<String>>| {
        Some(LabelSelector {
            match_labels: None,
            match_expressions: Some(vec![LabelRequirement {
                key: "k".into(),
                operator: operator.into(),
                values,
            }]),
        })
    };
    assert_eq!(
        selector_to_calico(&exp("NotIn", Some(vec!["a".into()])), SelectorKind::Namespace),
        "k not in { 'a' }"
    );
    assert_eq!(
        selector_to_calico(&exp("Exists", None), SelectorKind::Namespace),
        "has(k)"
    );
    assert_eq!(selector_to_calico(&None, SelectorKind::Namespace), "");
    assert_eq!(
        peer_fields(None),
        (None, None, Vec::<String>::new(), Vec::<String>::new())
    );
    let empty = k8s_network_policy_spec_to_calico(&K8sNetworkPolicySpec::default());
    assert_eq!(empty.types, vec![PolicyType::Ingress]);
    assert!(empty.ingress.is_empty());
}
