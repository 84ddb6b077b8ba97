use calico::nat_outgoing::{build_nat_table, desired_doc, NatState};
use calico::pools::{Cidr, IpAddress, PoolFields};

#[test]
fn renders_return_before_masquerade() {
    let doc = build_nat_table(
        &["192.168.0.0/16".to_string()],
        &["192.168.0.0/16".to_string()],
    )
    .render();
    assert!(doc.contains("type nat hook postrouting priority 100"));
    // The exemption of traffic within the cluster precedes the masquerade.
    let ret = doc.find("ip saddr 192.168.0.0/16 ip daddr 192.168.0.0/16 return");
    let masq = doc.find("ip saddr 192.168.0.0/16 masquerade");
    assert!(ret.is_some() && masq.is_some());
    assert!(ret.unwrap() < masq.unwrap());
}

#[test]
fn no_masquerade_when_no_natoutgoing_pools() {
    let doc = build_nat_table(&[], &["192.168.0.0/16".to_string()]).render();
    assert!(!doc.contains("masquerade"));
    assert!(doc.contains("type nat hook postrouting"));
}

fn pool(cidr: &str, nat: Option<bool>, disabled: Option<bool>) -> PoolFields {
    PoolFields {
        disabled,
        cidr: Some(cidr.to_string()),
        block: Ok(Cidr::new(IpAddress::V4(0x0a00_0000), 8).unwrap()),
        nat_outgoing: nat,
        vxlan_mode: None,
        block_size: None,
    }
}

#[test]
fn pools_decide_what_is_masqueraded() {
    let doc = desired_doc(&vec![
        pool("10.0.0.0/16", Some(true), None),
        pool("10.1.0.0/16", None, None),
        pool("10.2.0.0/16", Some(true), Some(true)),
    ]);
    assert!(doc.contains("ip saddr 10.0.0.0/16 masquerade"));
    assert!(doc.contains("ip saddr 10.0.0.0/16 ip daddr 10.1.0.0/16 return"));
    assert!(!doc.contains("ip saddr 10.1.0.0/16 masquerade"));
    assert!(!doc.contains("10.2.0.0/16"));
    let expected = build_nat_table(
        &["10.0.0.0/16".to_string()],
        &["10.0.0.0/16".to_string(), "10.1.0.0/16".to_string()],
    )
    .render();
    assert_eq!(doc, expected);
}

#[test]
fn a_document_is_due_until_it_is_applied() {
    let mut s = NatState::new();
    assert!(s.due("a"));
    s.record("a".to_string(), &Err("no".to_string()));
    assert!(s.due("a"));
    s.record("a".to_string(), &Ok(()));
    assert!(!s.due("a"));
    assert!(s.due("b"));
}
