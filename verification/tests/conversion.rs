use calico::conversion::{
    escape_segment, namespace_object_to_profile, namespace_to_profile, node_internal_ip,
    node_to_calico_node, pod_ip_networks, pod_to_workload_endpoint, profile_name,
    service_account_profile_name, service_account_to_profile, veth_name_for_digest,
    veth_name_for_workload, workload_endpoint_name, NamedLabels, PodFacts, PodSpecFacts,
    PodStatusFacts, LABEL_NAMESPACE, LABEL_ORCHESTRATOR, LABEL_SERVICE_ACCOUNT,
    METADATA_ANNOTATION,
};
use calico::ordmap::{Labels, OrdMap};
use calico::resources::Action;
use calico::vxlan_reconcile::NodeAddress;

fn labels(pairs: &[(&str, &str)]) -> Labels {
    let mut m: Labels = OrdMap::new();
    for (k, v) in pairs {
        m.insert(k.to_string(), v.to_string());
    }
    m
}

#[test]
fn wep_name_golden_simple() {
    assert_eq!(
        workload_endpoint_name("nodeA", "podA", "eth0"),
        "nodeA-k8s-podA-eth0"
    );
}

#[test]
fn wep_name_golden_escaped_dash() {
    assert_eq!(
        workload_endpoint_name("node", "pod-name", "eth0"),
        "node-k8s-pod--name-eth0"
    );
}

#[test]
fn wep_name_escapes_all_segments_and_defaults_endpoint() {
    assert_eq!(
        workload_endpoint_name("node-1", "my-pod", ""),
        "node--1-k8s-my--pod-eth0"
    );
}

#[test]
fn veth_name_matches_cni_reference_vectors() {
    assert_eq!(
        veth_name_for_workload("default", "nginx"),
        "calic440f455693"
    );
    assert_eq!(
        veth_name_for_workload("kube-system", "coredns-abc"),
        "cali3d5d6ab04b5"
    );
    assert_eq!(
        veth_name_for_workload("prod", "my-app-7d9f"),
        "cali163e8e8fd7c"
    );
}

fn ready_pod() -> PodFacts {
    PodFacts {
        name: "podA".into(),
        namespace: Some("default".into()),
        generate_name: None,
        labels: labels(&[("labelA", "valueA"), ("labelB", "valueB")]),
        annotations: OrdMap::new(),
        spec: Some(PodSpecFacts {
            host_network: None,
            node_name: Some("nodeA".into()),
            service_account_name: Some("sa1".into()),
        }),
        status: Some(PodStatusFacts {
            pod_ips: None,
            pod_ip: Some("192.168.0.1".into()),
        }),
    }
}

#[test]
fn pod_to_wep_normal_pod() {
    let c = pod_to_workload_endpoint(&ready_pod()).expect("ready pod converts");
    assert_eq!(c.name, "nodeA-k8s-podA-eth0");
    assert_eq!(c.spec.node, "nodeA");
    assert_eq!(c.spec.pod, "podA");
    assert_eq!(c.spec.orchestrator, "k8s");
    assert_eq!(c.spec.endpoint, "eth0");
    assert_eq!(c.spec.ipnetworks, vec!["192.168.0.1/32".to_string()]);
    assert_eq!(
        c.spec.profiles,
        vec!["kns.default".to_string(), "ksa.default.sa1".to_string()]
    );
    assert_eq!(c.spec.service_account_name.as_deref(), Some("sa1"));
    assert_eq!(
        c.spec.interface_name,
        veth_name_for_workload("default", "podA")
    );
    // The labels that are added stand beside those of the pod.
    assert_eq!(c.labels.lookup("labelA").unwrap(), "valueA");
    assert_eq!(c.labels.lookup(LABEL_NAMESPACE).unwrap(), "default");
    assert_eq!(c.labels.lookup(LABEL_ORCHESTRATOR).unwrap(), "k8s");
    assert_eq!(c.labels.lookup(LABEL_SERVICE_ACCOUNT).unwrap(), "sa1");
    let meta = c
        .annotations
        .lookup(METADATA_ANNOTATION)
        .expect("metadata annotation");
    assert!(
        meta.contains("\"projectcalico.org/namespace\":\"default\""),
        "{meta}"
    );
    assert!(meta.contains("\"creationTimestamp\":null"), "{meta}");
}

#[test]
fn pod_to_wep_ipv6_uses_128_mask() {
    let mut pod = ready_pod();
    pod.status.as_mut().unwrap().pod_ip = Some("fd00::5".into());
    let c = pod_to_workload_endpoint(&pod).unwrap();
    assert_eq!(c.spec.ipnetworks, vec!["fd00::5/128".to_string()]);
}

#[test]
fn pod_without_service_account_omits_sa_profile_and_label() {
    let mut pod = ready_pod();
    pod.spec.as_mut().unwrap().service_account_name = None;
    let c = pod_to_workload_endpoint(&pod).unwrap();
    assert_eq!(c.spec.profiles, vec!["kns.default".to_string()]);
    assert!(c.labels.lookup(LABEL_SERVICE_ACCOUNT).is_none());
    assert!(c.spec.service_account_name.is_none());
}

#[test]
fn host_networked_pod_is_skipped() {
    let mut pod = ready_pod();
    pod.spec.as_mut().unwrap().host_network = Some(true);
    assert!(pod_to_workload_endpoint(&pod).is_none());
}

#[test]
fn unscheduled_pod_is_skipped() {
    let mut pod = ready_pod();
    pod.spec.as_mut().unwrap().node_name = None;
    assert!(pod_to_workload_endpoint(&pod).is_none());
}

#[test]
fn pod_without_ip_is_skipped() {
    let mut pod = ready_pod();
    pod.status.as_mut().unwrap().pod_ip = None;
    assert!(pod_to_workload_endpoint(&pod).is_none());
}

#[test]
fn namespace_maps_labels_to_pcns_prefix_and_allow_posture() {
    let labels = labels(&[("team", "payments"), ("env", "prod")]);
    let (name, spec) = namespace_to_profile("payments-ns", &labels);
    assert_eq!(name, "kns.payments-ns");
    assert_eq!(spec.labels_to_apply.lookup("pcns.team").unwrap(), "payments");
    assert_eq!(spec.labels_to_apply.lookup("pcns.env").unwrap(), "prod");
    assert_eq!(spec.ingress.len(), 1);
    assert_eq!(spec.ingress[0].action, Action::Allow);
    assert_eq!(spec.egress[0].action, Action::Allow);
}

#[test]
fn namespace_empty_labels_yield_empty_labels_to_apply() {
    let (_, spec) = namespace_to_profile("kube-system", &OrdMap::new());
    assert!(spec.labels_to_apply.is_empty());
}

#[test]
fn service_account_to_profile_name_and_pcsa_labels() {
    let sa = NamedLabels {
        name: "builder".into(),
        labels: labels(&[("role", "build")]),
    };
    let (name, spec) = service_account_to_profile("ci", &sa);
    assert_eq!(name, "ksa.ci.builder");
    assert_eq!(spec.labels_to_apply.lookup("pcsa.role").unwrap(), "build");
    assert_eq!(spec.ingress[0].action, Action::Allow);
    assert_eq!(spec.egress[0].action, Action::Allow);
}

#[test]
fn service_account_profile_name_defaults_empty_namespace() {
    assert_eq!(
        service_account_profile_name("", "default"),
        "ksa.default.default"
    );
}

fn address(kind: &str, address: &str) -> NodeAddress {
    NodeAddress {
        kind: kind.into(),
        address: address.into(),
    }
}

#[test]
fn node_internal_ip_becomes_bgp_ipv4_and_orch_ref() {
    let (name, spec) = node_to_calico_node(
        "nodeA",
        &vec![
            address("Hostname", "nodeA"),
            address("InternalIP", "10.0.0.5"),
        ],
    );
    assert_eq!(name, "nodeA");
    assert_eq!(spec.bgp.unwrap().ipv4_address.unwrap(), "10.0.0.5");
    assert_eq!(spec.orch_refs.len(), 1);
    assert_eq!(spec.orch_refs[0].node_name.as_deref(), Some("nodeA"));
    assert_eq!(spec.orch_refs[0].orchestrator, "k8s");
}

#[test]
fn node_without_internal_ip_has_no_bgp() {
    let (name, spec) = node_to_calico_node("nodeB", &vec![]);
    assert_eq!(name, "nodeB");
    assert!(spec.bgp.is_none());
    assert_eq!(spec.orch_refs[0].orchestrator, "k8s");
}

#[test]
fn metadata_annotation_is_json() {
    let mut pod = ready_pod();
    pod.labels = labels(&[("quote", "a\"b\\\n")]);
    let c = pod_to_workload_endpoint(&pod).unwrap();
    let text = c.annotations.lookup(METADATA_ANNOTATION).unwrap();
    let value: serde_json::Value = serde_json::from_str(text).unwrap();
    assert_eq!(value["labels"]["quote"], "a\"b\\\n");
    assert_eq!(value["labels"][LABEL_ORCHESTRATOR], "k8s");
    assert!(value["creationTimestamp"].is_null());
}

#[test]
fn several_pod_addresses_are_kept_in_order() {
    let mut pod = ready_pod();
    pod.status = Some(PodStatusFacts {
        pod_ips: Some(vec!["10.0.0.1".into(), "fd00::1".into()]),
        pod_ip: Some("10.0.0.9".into()),
    });
    assert_eq!(pod_ip_networks(&pod), vec!["10.0.0.1/32", "fd00::1/128"]);
    pod.status = None;
    assert!(pod_ip_networks(&pod).is_empty());
}

#[test]
fn names_of_profiles_and_segments() {
    assert_eq!(escape_segment("a-b--c"), "a--b----c");
    assert_eq!(profile_name("default"), "kns.default");
    assert_eq!(
        service_account_profile_name("ns", "sa"),
        "ksa.ns.sa"
    );
    let (name, spec) = namespace_object_to_profile(&NamedLabels {
        name: "n".into(),
        labels: labels(&[("a", "b")]),
    });
    assert_eq!(name, "kns.n");
    assert_eq!(spec.labels_to_apply.lookup("pcns.a").unwrap(), "b");
    let digest: Vec<u8> = (0u8..20).collect();
    assert_eq!(veth_name_for_digest(&digest), "cali00010203040");
}

#[test]
fn internal_addresses_are_preferred_as_listed() {
    assert_eq!(
        node_internal_ip(&vec![
            address("ExternalIP", "1.2.3.4"),
            address("InternalIP", "10.0.0.1"),
            address("InternalIP", "10.0.0.2"),
        ]),
        Some("10.0.0.1".to_string())
    );
    assert_eq!(node_internal_ip(&vec![address("Hostname", "n")]), None);
}
