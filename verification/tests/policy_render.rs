use calico::nft::{NftMatch, Verdict};
use calico::ordmap::{Labels, OrdMap};
use calico::policy_render::{
    build_ingress_policy_table, map_verdict, port_opts, proto_of, render_ingress_policies,
    render_ingress_policies_with_endpoints, render_ingress_rule, Endpoint, Evaluations,
    SetResolver,
};
use calico::resources::{
    Action, EntityRule, NetworkPolicySpec, PolicyType, Protocol, Rule,
};

fn rule(action: Action, protocol: Option<&str>, source: EntityRule, ports: &[u16]) -> Rule {
    Rule {
        action,
        protocol: protocol.map(|p| Protocol::Named(p.to_string())),
        source,
        destination: EntityRule {
            ports: ports.to_vec(),
            ..Default::default()
        },
    }
}

fn from_nets(nets: &[&str]) -> EntityRule {
    EntityRule {
        nets: nets.iter().map(|s| s.to_string()).collect(),
        ..Default::default()
    }
}

fn from_selector(selector: &str) -> EntityRule {
    EntityRule {
        selector: Some(selector.to_string()),
        ..Default::default()
    }
}

fn np(selector: &str, ingress: Vec<Rule>) -> NetworkPolicySpec {
    NetworkPolicySpec {
        selector: selector.into(),
        types: vec![PolicyType::Ingress],
        ingress,
        ..Default::default()
    }
}

#[test]
fn renders_cidr_port_rule() {
    let spec = np(
        "app == 'db'",
        vec![rule(
            Action::Allow,
            Some("TCP"),
            from_nets(&["10.0.0.0/24"]),
            &[5432],
        )],
    );
    let table = render_ingress_policies("inet", "calico", &vec![("allow-db".into(), spec)]);
    let doc = table.render();
    assert!(doc.contains("chain cali-pi-allow-db"));
    assert!(doc.contains("chain cali-input"));
    assert!(doc.contains("jump cali-pi-allow-db"));
    assert!(doc.contains("meta l4proto tcp ip saddr 10.0.0.0/24 th dport 5432 accept"));
    assert!(doc.contains("drop comment \"end-of-policy default deny\""));
}

#[test]
fn expands_multiple_nets_and_ports() {
    let spec = np(
        "all()",
        vec![rule(
            Action::Allow,
            None,
            from_nets(&["10.0.0.0/24", "10.1.0.0/24"]),
            &[80, 443],
        )],
    );
    let rules = render_ingress_rule(&spec.ingress[0]);
    assert_eq!(rules.len(), 4);
}

#[test]
fn skips_selector_only_peer() {
    let spec = np(
        "all()",
        vec![rule(
            Action::Allow,
            None,
            from_selector("app == 'web'"),
            &[],
        )],
    );
    assert!(render_ingress_rule(&spec.ingress[0]).is_empty());
}

fn endpoint(app: &str, ip: &str) -> Endpoint {
    let mut labels: Labels = OrdMap::new();
    labels.insert("app".to_string(), app.to_string());
    Endpoint {
        labels,
        ip: ip.to_string(),
    }
}

/// What `app == '<app>'` makes of the endpoints.
fn evaluated(selector: &str, app: &str, endpoints: &[Endpoint]) -> Evaluations {
    let hits = endpoints
        .iter()
        .map(|e| e.labels.lookup("app").map(String::as_str) == Some(app))
        .collect();
    let mut evaluations: Evaluations = OrdMap::new();
    evaluations.insert(selector.to_string(), Some(hits));
    evaluations
}

#[test]
fn selector_peer_resolves_to_named_set() {
    let spec = np(
        "app == 'db'",
        vec![rule(
            Action::Allow,
            Some("TCP"),
            from_selector("app == 'web'"),
            &[5432],
        )],
    );
    let endpoints = vec![
        endpoint("web", "10.0.0.1"),
        endpoint("web", "10.0.0.2"),
        endpoint("db", "10.0.0.9"),
    ];
    let evaluations = evaluated("app == 'web'", "web", &endpoints);
    let table = render_ingress_policies_with_endpoints(
        "inet",
        "calico",
        &vec![("allow-db".into(), spec)],
        &endpoints,
        &evaluations,
    );
    let doc = table.render();
    // A set with the two web addresses, not that of the database, and a rule with it.
    assert!(doc.contains("set cali-s-0"));
    assert!(doc.contains("10.0.0.1"));
    assert!(doc.contains("10.0.0.2"));
    assert!(!doc.contains("10.0.0.9"));
    assert!(doc.contains("ip saddr @cali-s-0"));
    assert!(doc.contains("tcp") || doc.contains("l4proto tcp"));
}

#[test]
fn deny_and_pass_map_to_drop_and_return() {
    let deny = np(
        "all()",
        vec![rule(Action::Deny, None, from_nets(&["1.2.3.0/24"]), &[])],
    );
    assert_eq!(
        render_ingress_rule(&deny.ingress[0])[0].verdict,
        Verdict::Drop
    );
    let pass = np(
        "all()",
        vec![rule(Action::Pass, None, from_nets(&["1.2.3.0/24"]), &[])],
    );
    assert_eq!(
        render_ingress_rule(&pass.ingress[0])[0].verdict,
        Verdict::Return
    );
}

#[test]
fn a_selector_has_one_set() {
    let endpoints = vec![endpoint("web", "10.0.0.2"), endpoint("web", "10.0.0.1")];
    let mut r = SetResolver::new(&endpoints);
    let both = Some(vec![true, true]);
    assert_eq!(r.resolve("a", &both), Some("cali-s-0".to_string()));
    assert_eq!(r.resolve("b", &both), Some("cali-s-1".to_string()));
    assert_eq!(r.resolve("a", &both), Some("cali-s-0".to_string()));
    assert_eq!(r.resolve("unreadable", &None), None);
    assert_eq!(r.sets.len(), 2);
    assert_eq!(r.sets[0].elements, vec!["10.0.0.1", "10.0.0.2"]);
}

#[test]
fn parts_of_rules() {
    let r = rule(Action::Allow, Some("UDP"), EntityRule::default(), &[53]);
    assert_eq!(proto_of(&r), Some("udp".to_string()));
    assert_eq!(port_opts(&r), vec![Some(53)]);
    assert_eq!(map_verdict(Action::Allow), Some(Verdict::Accept));
    assert_eq!(map_verdict(Action::Log), None);
    let mut icmp = rule(Action::Allow, None, EntityRule::default(), &[]);
    icmp.protocol = Some(Protocol::Number(1));
    assert_eq!(proto_of(&icmp), Some("1".to_string()));
    let rendered = render_ingress_rule(&icmp);
    assert_eq!(rendered.len(), 1);
    assert_eq!(
        rendered[0].matches,
        vec![NftMatch::L4Proto("1".to_string())]
    );
}

#[test]
fn a_protocol_number_is_matched() {
    let mut dns = rule(Action::Allow, None, from_nets(&["10.0.0.0/24"]), &[53]);
    dns.protocol = Some(Protocol::Number(17));
    let rendered = render_ingress_rule(&dns);
    assert_eq!(rendered.len(), 1);
    assert_eq!(
        rendered[0].matches,
        vec![
            NftMatch::L4Proto("17".to_string()),
            NftMatch::SrcAddr("10.0.0.0/24".to_string()),
            NftMatch::DestPort(53),
        ]
    );
    assert_eq!(rendered[0].verdict, Verdict::Accept);
}

#[test]
fn a_list_of_policies_becomes_a_table() {
    let spec = || np("all()", vec![rule(Action::Allow, None, from_nets(&["10.0.0.0/8"]), &[])]);
    let table = build_ingress_policy_table(
        vec![("a".to_string(), Ok(spec())), ("b".to_string(), Ok(spec()))],
        "calico",
    )
    .unwrap();
    assert_eq!(
        table,
        render_ingress_policies(
            "inet",
            "calico",
            &vec![("a".into(), spec()), ("b".into(), spec())]
        )
    );
    let err = build_ingress_policy_table(
        vec![
            ("a".to_string(), Ok(spec())),
            ("b".to_string(), Err("x".to_string())),
            ("c".to_string(), Err("y".to_string())),
        ],
        "calico",
    )
    .unwrap_err();
    assert_eq!(err, "bad NetworkPolicy spec: x");
}
