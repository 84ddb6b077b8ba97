use calico::kernel::{
    address_assigned, device_step, device_with_mac, gateway_step, link_found, link_index_for_ip,
    mac_of, nft_applied, nft_deleted, nft_listed, route_deleted, set_contains_member, DeviceStep,
    GatewayStep,
};
use calico::pools::IpAddress;

fn refused(text: &str) -> Result<(), String> {
    Err(text.to_string())
}

#[test]
fn harmless_refusals_are_successes() {
    assert_eq!(route_deleted(Ok(())), Ok(()));
    assert_eq!(
        route_deleted(refused("netlink: No such process (os error 3)")),
        Ok(())
    );
    assert_eq!(route_deleted(refused("denied")), refused("denied"));
    assert_eq!(
        address_assigned(refused("File exists (os error 17)")),
        Ok(())
    );
    assert_eq!(
        address_assigned(refused("No such process")),
        refused("No such process")
    );
    assert_eq!(link_found(Ok(Some(3))), Ok(Some(3)));
    assert_eq!(link_found(Ok(None)), Ok(None));
    assert_eq!(link_found(Err("No such device".to_string())), Ok(None));
    assert_eq!(link_found(Err("x".to_string())), Err("x".to_string()));
}

#[test]
fn answers_of_nft() {
    assert_eq!(nft_applied(true, "ignored"), Ok(()));
    assert_eq!(nft_applied(false, "why"), refused("nft failed: why"));
    assert_eq!(
        nft_listed(true, "rules".to_string(), "x"),
        Ok("rules".to_string())
    );
    assert_eq!(
        nft_listed(false, "rules".to_string(), "x"),
        Err("nft list failed: x".to_string())
    );
    assert_eq!(nft_deleted(true, "x"), Ok(()));
    assert_eq!(
        nft_deleted(false, "Error: No such file or directory"),
        Ok(())
    );
    assert_eq!(nft_deleted(false, "x"), refused("nft delete failed: x"));
}

#[test]
fn links_and_devices() {
    let entries = vec![(1, vec![0x7f00_0001]), (2, vec![]), (5, vec![7, 9]), (6, vec![9])];
    assert_eq!(link_index_for_ip(&entries, 9), Some(5));
    assert_eq!(link_index_for_ip(&entries, 8), None);
    assert_eq!(
        mac_of(&vec![vec![1, 2], vec![0xaa, 0, 1, 2, 3, 4], vec![0; 6]]),
        Some("aa:00:01:02:03:04".to_string())
    );
    assert_eq!(mac_of(&vec![vec![1, 2]]), None);
    assert_eq!(device_step(None, false), DeviceStep::Create);
    assert_eq!(device_step(Some(4), false), DeviceStep::Configure(4));
    assert_eq!(device_step(Some(4), true), DeviceStep::Configure(4));
    assert_eq!(
        device_step(None, true),
        DeviceStep::Fail("vxlan device missing after create".to_string())
    );
    assert_eq!(
        device_with_mac(4, Some("m".to_string())),
        Ok((4, "m".to_string()))
    );
    assert_eq!(
        device_with_mac(4, None),
        Err("vxlan device has no MAC".to_string())
    );
}

#[test]
fn gateways_of_routes() {
    let gw = Some("10.0.0.1".to_string());
    assert_eq!(
        gateway_step(&gw, Some(IpAddress::V4(0x0a00_0001))),
        GatewayStep::Via(IpAddress::V4(0x0a00_0001))
    );
    assert_eq!(gateway_step(&None, None), GatewayStep::Skip);
    assert_eq!(
        gateway_step(&Some("a\"b".to_string()), None),
        GatewayStep::Invalid("invalid route gateway address: \"a\\\"b\"".to_string())
    );
}

#[test]
fn members_are_sought_in_their_own_set() {
    let listed = "table inet calico {\n\tset one { type ipv4_addr\n elements = { 10.0.0.1 }\n\t}\n\
                  \tset two { type ipv4_addr\n elements = { 10.0.0.2 }\n\t}\n}";
    assert!(set_contains_member(listed, "one", "10.0.0.1"));
    assert!(!set_contains_member(listed, "one", "10.0.0.2"));
    assert!(set_contains_member(listed, "two", "10.0.0.2"));
    assert!(!set_contains_member(listed, "three", "10.0.0.1"));
    assert!(set_contains_member("set x 1 2", "x", "2"));
}
