use calico::ordmap::{Labels, OrdMap};
use calico::pools::{ipv4_text, parse_ipv4, Cidr, IpAddress, PoolFields};
use calico::resources::EncapMode;
use calico::vxlan_reconcile::{
    allocate_tunnel_ip, allocated_tunnel_ip, build_vteps, first_pool, internal_ip, parse_encap, plan_remotes,
    pool_encaps, publication_patch, published_tunnel_ip, recovered_tunnel_ip, resolve_encap, tunnel_handle_id,
    underlay_address, underlay_link, vtep_from_node, AffinityFields, EncapDecision, NodeAddress, NodeFacts, OverlayAction,
    PoolEncap, TunnelIpAction, TunnelIpEvent, ANN_TUNNEL_IP, ANN_TUNNEL_MAC,
};

fn cidr(text: &str) -> Cidr {
    let (addr, len) = text.split_once('/').unwrap();
    Cidr::new(
        IpAddress::V4(parse_ipv4(addr).unwrap()),
        len.parse().unwrap(),
    )
    .unwrap()
}

fn pool(text: &str, mode: EncapMode) -> PoolEncap {
    PoolEncap {
        cidr: cidr(text),
        vxlan_mode: mode,
    }
}

fn block(text: &str) -> Cidr {
    cidr(text)
}

fn ip(text: &str) -> u32 {
    parse_ipv4(text).unwrap()
}

#[test]
fn resolve_encap_always_routes() {
    let pools = vec![pool("192.168.0.0/16", EncapMode::Always)];
    assert_eq!(
        resolve_encap(&pools, block("192.168.5.0/26")),
        EncapDecision::Route
    );
}

#[test]
fn resolve_encap_never_skips() {
    let pools = vec![pool("192.168.0.0/16", EncapMode::Never)];
    assert_eq!(
        resolve_encap(&pools, block("192.168.5.0/26")),
        EncapDecision::Skip
    );
}

#[test]
fn resolve_encap_no_pool_skips() {
    let pools = vec![pool("192.168.0.0/16", EncapMode::Always)];
    assert_eq!(
        resolve_encap(&pools, block("10.0.0.0/26")),
        EncapDecision::NoPool
    );
    assert_eq!(
        resolve_encap(&[], block("10.0.0.0/26")),
        EncapDecision::NoPool
    );
}

#[test]
fn resolve_encap_cross_subnet_routes_conservatively() {
    let pools = vec![pool("192.168.0.0/16", EncapMode::CrossSubnet)];
    assert_eq!(
        resolve_encap(&pools, block("192.168.5.0/26")),
        EncapDecision::Route
    );
}

#[test]
fn resolve_encap_longest_prefix_wins() {
    let pools = vec![
        pool("10.0.0.0/8", EncapMode::Always),
        pool("10.1.0.0/16", EncapMode::Never),
    ];
    assert_eq!(
        resolve_encap(&pools, block("10.1.2.0/26")),
        EncapDecision::Skip
    );
    assert_eq!(
        resolve_encap(&pools, block("10.2.2.0/26")),
        EncapDecision::Route
    );
}

fn node_with(
    name: &str,
    tunnel_ip: Option<&str>,
    mac: Option<&str>,
    internal: Option<&str>,
) -> NodeFacts {
    let mut annotations: Labels = OrdMap::new();
    if let Some(t) = tunnel_ip {
        annotations.insert(ANN_TUNNEL_IP.to_string(), t.to_string());
    }
    if let Some(m) = mac {
        annotations.insert(ANN_TUNNEL_MAC.to_string(), m.to_string());
    }
    NodeFacts {
        name: name.to_string(),
        annotations,
        addresses: internal
            .iter()
            .map(|ip| NodeAddress {
                kind: "InternalIP".to_string(),
                address: ip.to_string(),
            })
            .collect(),
    }
}

#[test]
fn build_vteps_parses_and_filters_incomplete() {
    let nodes = vec![
        node_with(
            "node-a",
            Some("10.244.0.1"),
            Some("aa:bb:cc:dd:ee:01"),
            Some("192.168.1.10"),
        ),
        node_with(
            "node-b",
            Some("10.244.0.2"),
            Some("aa:bb:cc:dd:ee:02"),
            Some("192.168.1.11"),
        ),
        // A node that lacks one of the three is left out.
        node_with("node-c", Some("10.244.0.3"), None, Some("192.168.1.12")),
        node_with(
            "node-d",
            None,
            Some("aa:bb:cc:dd:ee:04"),
            Some("192.168.1.13"),
        ),
        node_with(
            "node-e",
            Some("10.244.0.5"),
            Some("aa:bb:cc:dd:ee:05"),
            None,
        ),
    ];
    let vteps = build_vteps(&nodes);
    assert_eq!(vteps.len(), 2);
    let a = vteps.lookup("node-a").expect("node-a VTEP");
    assert_eq!(a.tunnel_ip, ip("10.244.0.1"));
    assert_eq!(a.mac, "aa:bb:cc:dd:ee:01");
    assert_eq!(a.underlay_ip, ip("192.168.1.10"));
    assert!(vteps.lookup("node-c").is_none());
    assert!(vteps.lookup("node-d").is_none());
    assert!(vteps.lookup("node-e").is_none());
}

fn two_nodes() -> Vec<NodeFacts> {
    vec![
        node_with(
            "self",
            Some("10.244.0.1"),
            Some("aa:bb:cc:dd:ee:01"),
            Some("192.168.1.10"),
        ),
        node_with(
            "peer",
            Some("10.244.0.2"),
            Some("aa:bb:cc:dd:ee:02"),
            Some("192.168.1.11"),
        ),
    ]
}

#[test]
fn self_vs_remote_filtering() {
    let vteps = build_vteps(&two_nodes());
    let remotes: Vec<&str> = vteps
        .entries
        .iter()
        .map(|(k, _)| k.as_str())
        .filter(|n| *n != "self")
        .collect();
    assert_eq!(remotes, vec!["peer"]);
}

fn affinity(node: &str, text: &str) -> AffinityFields {
    AffinityFields {
        node: Some(node.to_string()),
        block: Some(Ok(cidr(text))),
    }
}

#[test]
fn remotes_are_planned() {
    let vteps = build_vteps(&two_nodes());
    let pools = vec![
        pool("10.244.0.0/16", EncapMode::Always),
        pool("10.9.0.0/16", EncapMode::Never),
    ];
    let actions = plan_remotes(
        "self",
        &vteps,
        &pools,
        &vec![
            affinity("self", "10.244.1.0/26"),
            affinity("peer", "10.244.2.0/26"),
            affinity("peer", "10.9.0.0/26"),
            affinity("peer", "172.16.0.0/26"),
            affinity("unknown", "10.244.3.0/26"),
        ],
    );
    assert_eq!(
        actions,
        vec![
            OverlayAction::Neighbour {
                tunnel_ip: ip("10.244.0.2"),
                mac: "aa:bb:cc:dd:ee:02".to_string()
            },
            OverlayAction::Forward {
                mac: "aa:bb:cc:dd:ee:02".to_string(),
                node_ip: ip("192.168.1.11")
            },
            OverlayAction::Route {
                dst: ip("10.244.2.0"),
                prefix_len: 26,
                gateway: ip("10.244.0.2")
            },
            OverlayAction::NoPool(cidr("172.16.0.0/26")),
        ]
    );
}

#[test]
fn facts_of_nodes() {
    let mac = Some("aa:bb:cc:dd:ee:09");
    let n = node_with("n", Some("10.0.0.1"), mac, Some("10.0.0.2"));
    assert_eq!(internal_ip(&n.addresses), Some(ip("10.0.0.2")));
    assert_eq!(published_tunnel_ip(&n.annotations), Some(ip("10.0.0.1")));
    assert!(vtep_from_node(&n).is_some());
    let odd = node_with("n", Some("nonsense"), mac, Some("10.0.0.2"));
    assert_eq!(published_tunnel_ip(&odd.annotations), None);
    assert!(vtep_from_node(&odd).is_none());
}

#[test]
fn tunnel_addresses() {
    assert_eq!(
        recovered_tunnel_ip(&vec![IpAddress::V6(1), IpAddress::V4(7)]),
        Some(7)
    );
    assert_eq!(recovered_tunnel_ip(&vec![]), None);
    assert_eq!(allocated_tunnel_ip(&vec![IpAddress::V4(7)]), Ok(7));
    assert!(allocated_tunnel_ip(&vec![]).is_err());
    assert!(tunnel_handle_id("node-a").contains("node-a"));
}

fn fields(text: &str, mode: Option<&str>, disabled: Option<bool>, size: Option<u64>) -> PoolFields {
    PoolFields {
        disabled,
        cidr: Some(text.to_string()),
        block: Ok(cidr(text)),
        nat_outgoing: None,
        vxlan_mode: mode.map(str::to_string),
        block_size: size,
    }
}

#[test]
fn pools_of_the_datastore() {
    assert_eq!(parse_encap(&Some("Always".to_string())), EncapMode::Always);
    assert_eq!(
        parse_encap(&Some("CrossSubnet".to_string())),
        EncapMode::CrossSubnet
    );
    assert_eq!(parse_encap(&Some("x".to_string())), EncapMode::Never);
    assert_eq!(parse_encap(&None), EncapMode::Never);
    let pools = vec![
        fields("10.0.0.0/16", Some("Always"), Some(true), None),
        fields("10.1.0.0/16", Some("Always"), None, Some(28)),
    ];
    assert_eq!(first_pool(&pools), Ok((cidr("10.1.0.0/16"), 28)));
    assert!(first_pool(&vec![]).is_err());
    assert!(pool_encaps(&pools).contains(&pool("10.1.0.0/16", EncapMode::Always)));
}

#[test]
fn a_published_end_is_found_by_others() {
    let patch = publication_patch(ip("10.244.0.9"), "aa:bb:cc:dd:ee:09");
    let expected: serde_json::Value = serde_json::from_str(
        r#"{"metadata": {"annotations": {
            "projectcalico.org/VXLANTunnelIPv4Address": "10.244.0.9",
            "projectcalico.org/VXLANTunnelMACAddr": "aa:bb:cc:dd:ee:09"
        }}}"#,
    )
    .unwrap();
    assert_eq!(patch, expected);
    let mut node = node_with("n", None, None, Some("192.168.1.9"));
    node.annotations
        .insert(ANN_TUNNEL_IP.to_string(), ipv4_text(ip("10.244.0.9")));
    node.annotations
        .insert(ANN_TUNNEL_MAC.to_string(), "aa:bb:cc:dd:ee:09".to_string());
    let vtep = vtep_from_node(&node).unwrap();
    assert_eq!(vtep.tunnel_ip, ip("10.244.0.9"));
    assert_eq!(vtep.mac, "aa:bb:cc:dd:ee:09");
    assert_eq!(vtep.underlay_ip, ip("192.168.1.9"));
}

#[test]
fn an_end_that_cannot_be_read_is_left_out() {
    let good = node_with("n", Some("10.244.0.9"), Some("aa:bb:cc:dd:ee:09"), Some("192.168.1.9"));
    assert!(vtep_from_node(&good).is_some());
    for (tunnel, mac, own) in [
        ("10.244.0", "aa:bb:cc:dd:ee:09", "192.168.1.9"),
        ("10.244.0.9", "aa:bb:cc:dd:ee", "192.168.1.9"),
        ("10.244.0.9", "aa:bb:cc:dd:ee:xx", "192.168.1.9"),
        ("10.244.0.9", "", "192.168.1.9"),
        ("10.244.0.9", "aa:bb:cc:dd:ee:09", "fd00::9"),
    ] {
        let node = node_with("n", Some(tunnel), Some(mac), Some(own));
        assert!(vtep_from_node(&node).is_none());
    }
}

#[test]
fn addresses_are_written_and_read() {
    for text in ["0.0.0.0", "10.9.100.255", "255.255.255.255", "192.168.1.1"] {
        assert_eq!(ipv4_text(ip(text)), text);
    }
}

#[test]
fn specifications_are_read() {
    let spec: serde_json::Value = serde_json::from_str(
        r#"{"cidr": "10.0.0.0/8", "disabled": true, "natOutgoing": "yes", "vxlanMode": "Always",
            "blockSize": 28, "node": "peer"}"#,
    )
    .unwrap();
    let p = PoolFields::read(&spec, Ok(cidr("10.0.0.0/8")));
    assert_eq!(p.disabled, Some(true));
    assert_eq!(p.cidr.as_deref(), Some("10.0.0.0/8"));
    assert_eq!(p.block, Ok(cidr("10.0.0.0/8")));
    assert_eq!(p.nat_outgoing, None);
    assert_eq!(p.vxlan_mode.as_deref(), Some("Always"));
    assert_eq!(p.block_size, Some(28));
    let a = AffinityFields::read(&spec, Err("bad".to_string()));
    assert_eq!(a.node.as_deref(), Some("peer"));
    assert_eq!(a.block, Some(Err("bad".to_string())));
    let none = AffinityFields::read(&serde_json::Value::Null, Err("bad".to_string()));
    assert_eq!(none.node, None);
    assert_eq!(none.block, None);
}

#[test]
fn a_tunnel_address_is_taken_up_or_assigned() {
    let lost = || "lost".to_string();
    assert_eq!(
        allocate_tunnel_ip(TunnelIpEvent::Held(Ok(vec![
            IpAddress::V6(9),
            IpAddress::V4(7)
        ]))),
        TunnelIpAction::Use(7)
    );
    assert_eq!(
        allocate_tunnel_ip(TunnelIpEvent::Held(Ok(vec![IpAddress::V6(9)]))),
        TunnelIpAction::ReadPools
    );
    assert_eq!(
        allocate_tunnel_ip(TunnelIpEvent::Held(Err(lost()))),
        TunnelIpAction::Fail("look up existing tunnel IP: lost".to_string())
    );
    assert_eq!(
        allocate_tunnel_ip(TunnelIpEvent::Pools(Ok(vec![
            fields("10.1.0.0/16", None, Some(true), None),
            fields("10.2.0.0/16", None, None, Some(28)),
        ]))),
        TunnelIpAction::Assign {
            pool: cidr("10.2.0.0/16"),
            block_size: 28
        }
    );
    assert_eq!(
        allocate_tunnel_ip(TunnelIpEvent::Pools(Ok(vec![]))),
        TunnelIpAction::Fail("no usable IP pool".to_string())
    );
    assert_eq!(
        allocate_tunnel_ip(TunnelIpEvent::Pools(Err(lost()))),
        TunnelIpAction::Fail(lost())
    );
    assert_eq!(
        allocate_tunnel_ip(TunnelIpEvent::Assigned(Ok(vec![IpAddress::V4(8)]))),
        TunnelIpAction::Use(8)
    );
    assert_eq!(
        allocate_tunnel_ip(TunnelIpEvent::Assigned(Ok(vec![IpAddress::V6(8)]))),
        TunnelIpAction::Fail("no address available for VXLAN tunnel".to_string())
    );
    assert_eq!(
        allocate_tunnel_ip(TunnelIpEvent::Assigned(Err(lost()))),
        TunnelIpAction::Fail("allocate tunnel IP: lost".to_string())
    );
}

#[test]
fn the_underlay_is_found_or_missed() {
    let n = node_with("n", None, None, Some("10.0.0.2"));
    assert_eq!(underlay_address(&n.addresses), Ok(ip("10.0.0.2")));
    assert_eq!(
        underlay_address(&vec![]),
        Err("node has no InternalIP".to_string())
    );
    assert_eq!(underlay_link(Some(4), ip("10.0.0.2")), Ok(4));
    assert_eq!(
        underlay_link(None, ip("10.0.0.2")),
        Err("no local interface carries 10.0.0.2".to_string())
    );
}
