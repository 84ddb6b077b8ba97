use calico::pools::IpAddress;
use calico::selftest::{
    check_tunnel, forward_passed, forward_step, neighbour_present, require_all, require_device, require_gone,
    require_members, require_route, route_present, ForwardEnd, ForwardPhase, NeighbourFacts,
    RouteFacts, TunnelFixture, TunnelReadback, Wording,
};

fn strings(items: &[&str]) -> Vec<String> {
    items.iter().map(|s| s.to_string()).collect()
}

#[test]
fn listings_are_held_against_what_was_programmed() {
    let state_a = Wording::Quoting("STATE A missing ".to_string(), "; got:\n".to_string());
    assert_eq!(require_all("x y z", &strings(&["y", "x"]), &state_a), Ok(()));
    assert_eq!(
        require_all("x y", &strings(&["x", "a\"", "b"]), &state_a),
        Err("STATE A missing \"a\\\"\"; got:\nx y".to_string())
    );
    let set = Wording::Quoting("set missing ".to_string(), " after program; got:\n".to_string());
    assert_eq!(
        require_all("x y", &strings(&["s"]), &set),
        Err("set missing \"s\" after program; got:\nx y".to_string())
    );
    let table = Wording::Plain("table still present after delete".to_string());
    assert_eq!(require_gone("x y", &strings(&["a", "b"]), &table), Ok(()));
    assert_eq!(
        require_gone("x y", &strings(&["a", "y", "x"]), &table),
        Err("table still present after delete".to_string())
    );
    let chain = Wording::Listing("dispatch chain still present after remove:\n".to_string());
    assert_eq!(
        require_gone("x y", &strings(&["y"]), &chain),
        Err("dispatch chain still present after remove:\nx y".to_string())
    );
    let survived = Wording::Quoting(
        "STATE A object ".to_string(),
        " survived the restart re-render (flush failed?); got:\n".to_string(),
    );
    assert_eq!(
        require_gone("x y", &strings(&["a", "y", "x"]), &survived),
        Err(
            "STATE A object \"y\" survived the restart re-render (flush failed?); got:\nx y"
                .to_string()
        )
    );
}

#[test]
fn members_of_a_changed_set() {
    let good = "set s { 10.0.0.2, 10.0.0.3 } set t { 10.0.0.1 }";
    assert_eq!(
        require_members(good, "s", "10.0.0.3", "10.0.0.2", "10.0.0.1"),
        Ok(())
    );
    assert_eq!(
        require_members(good, "s", "10.0.0.4", "10.0.0.2", "10.0.0.1"),
        Err(format!("delta add 10.0.0.4 missing; got:\n{good}"))
    );
    assert_eq!(
        require_members(good, "s", "10.0.0.3", "10.0.0.5", "10.0.0.1"),
        Err(format!("untouched 10.0.0.5 vanished; got:\n{good}"))
    );
    assert_eq!(
        require_members(good, "t", "10.0.0.3", "10.0.0.2", "10.0.0.1"),
        Err(format!("delta remove 10.0.0.1 still present; got:\n{good}"))
    );
}

#[test]
fn the_device_has_its_attributes() {
    assert_eq!(require_device(Some(4096), Some(4789), Some(false)), Ok(()));
    assert_eq!(
        require_device(Some(1), Some(4789), Some(false)),
        Err("VNI mismatch: got Some(1), want 4096".to_string())
    );
    assert_eq!(
        require_device(None, None, None),
        Err("VNI mismatch: got None, want 4096".to_string())
    );
    assert_eq!(
        require_device(Some(4096), Some(53), None),
        Err("port mismatch: got Some(53), want 4789".to_string())
    );
    assert_eq!(
        require_device(Some(4096), Some(4789), Some(true)),
        Err("learning mismatch: got Some(true), want Some(false)".to_string())
    );
    assert_eq!(
        require_device(Some(4096), Some(4789), None),
        Err("learning mismatch: got None, want Some(false)".to_string())
    );
}

#[test]
fn tables_are_searched() {
    let entries = vec![
        NeighbourFacts {
            link: 3,
            destinations: vec![vec![10, 0, 0, 1]],
            hardware: vec![vec![1, 2, 3, 4, 5, 6]],
        },
        NeighbourFacts {
            link: 4,
            destinations: vec![vec![10, 0, 0, 2]],
            hardware: vec![],
        },
    ];
    let mac = [1, 2, 3, 4, 5, 6];
    assert!(neighbour_present(&entries, 3, &[10, 0, 0, 1], &mac));
    assert!(!neighbour_present(&entries, 4, &[10, 0, 0, 1], &mac));
    assert!(!neighbour_present(&entries, 4, &[10, 0, 0, 2], &mac));
    assert!(!neighbour_present(&entries, 3, &[10, 0, 0, 1], &mac[..5]));
    let routes = vec![RouteFacts {
        prefix_len: 24,
        destinations: vec![IpAddress::V4(7), IpAddress::V6(9)],
    }];
    assert!(route_present(&routes, IpAddress::V4(7), 24));
    assert!(route_present(&routes, IpAddress::V6(9), 24));
    assert!(!route_present(&routes, IpAddress::V4(7), 25));
    assert!(!route_present(&routes, IpAddress::V4(8), 24));
}

#[test]
fn forwarding_is_tested_step_by_step() {
    let mut phase = ForwardPhase::Topology;
    let steps = [
        (Ok(()), ForwardPhase::Baseline),
        (Ok(()), ForwardPhase::ApplyDeny),
        (Ok(()), ForwardPhase::PingDenied),
        (Err("no reply".to_string()), ForwardPhase::ApplyAllow),
        (Ok(()), ForwardPhase::PingAllowed),
        (Ok(()), ForwardPhase::Passed),
    ];
    for (outcome, next) in steps {
        phase = forward_step(phase, outcome).unwrap();
        assert_eq!(phase, next);
    }
}

#[test]
fn forwarding_fails_in_words() {
    let end = |phase: ForwardPhase, outcome: Result<(), String>| forward_step(phase, outcome).unwrap_err();
    let err = || Err("x".to_string());
    assert_eq!(
        end(ForwardPhase::Topology, err()),
        ForwardEnd {
            code: 2,
            message: "SKIP: cannot build topology: x".to_string()
        }
    );
    assert_eq!(end(ForwardPhase::Baseline, err()).code, 2);
    assert_eq!(
        end(ForwardPhase::ApplyDeny, err()).message,
        "FAILED: apply (deny state): x"
    );
    assert!(end(ForwardPhase::PingDenied, Ok(()))
        .message
        .contains("ALLOWED"));
    assert_eq!(
        end(ForwardPhase::ApplyAllow, err()).message,
        "FAILED: apply (allow state): x"
    );
    assert!(end(ForwardPhase::PingAllowed, err())
        .message
        .contains("DROPPED"));
}

#[test]
fn routes_are_required_or_unwanted() {
    let dst = IpAddress::V4(0xc0a8_0900);
    let listed = vec![RouteFacts {
        prefix_len: 24,
        destinations: vec![dst],
    }];
    assert_eq!(require_route(&listed, "192.168.9.0/24", dst, 24, true), Ok(()));
    assert_eq!(
        require_route(&listed, "192.168.9.0/25", dst, 25, true),
        Err("route 192.168.9.0/25 missing after program".to_string())
    );
    assert_eq!(
        require_route(&listed, "192.168.9.0/24", dst, 24, false),
        Err("route 192.168.9.0/24 still present after remove".to_string())
    );
    assert_eq!(require_route(&vec![], "192.168.9.0/24", dst, 24, false), Ok(()));
}

#[test]
fn a_tunnel_is_held_against_what_was_programmed() {
    let fixture = TunnelFixture {
        link: 7,
        tunnel_ip: 0x0af4_0001,
        remote_vtep: 0x0af4_0002,
        remote_underlay: 0x0a63_0002,
        remote_mac: "aa:bb:cc:dd:ee:02".to_string(),
        block: 0x0af4_0100,
        block_prefix: 24,
    };
    let entry = |dst: [u8; 4]| NeighbourFacts {
        link: 7,
        destinations: vec![dst.to_vec()],
        hardware: vec![vec![0xaa, 0xbb, 0xcc, 0xdd, 0xee, 0x02]],
    };
    let found = || TunnelReadback {
        vni: Some(4096),
        port: Some(4789),
        learning: Some(false),
        addresses: vec![1, 0x0af4_0001],
        neighbours: vec![entry([10, 244, 0, 2])],
        forwarding: vec![entry([10, 99, 0, 2])],
        routes: vec![RouteFacts {
            prefix_len: 24,
            destinations: vec![IpAddress::V4(0x0af4_0100)],
        }],
    };
    assert_eq!(check_tunnel(&fixture, &found()), Ok(()));
    let complaint = |change: &dyn Fn(&mut TunnelReadback)| {
        let mut f = found();
        change(&mut f);
        check_tunnel(&fixture, &f).unwrap_err()
    };
    assert_eq!(
        complaint(&|f| f.port = None),
        "port mismatch: got None, want 4789"
    );
    assert_eq!(
        complaint(&|f| f.addresses = vec![1]),
        "tunnel addr 10.244.0.1 missing on vxlan device"
    );
    assert_eq!(
        complaint(&|f| f.neighbours[0].link = 8),
        "neighbour 10.244.0.2 -> aa:bb:cc:dd:ee:02 missing"
    );
    assert_eq!(
        complaint(&|f| f.forwarding = vec![]),
        "FDB aa:bb:cc:dd:ee:02 -> 10.99.0.2 missing"
    );
    assert_eq!(
        complaint(&|f| f.routes[0].prefix_len = 25),
        "route 10.244.1.0/24 missing"
    );
}

#[test]
fn scenarios_that_passed_are_named() {
    assert_eq!(
        forward_passed(ForwardPhase::PingDenied),
        Some("DENY scenario OK (dst ingress dropped the packet)")
    );
    assert_eq!(
        forward_passed(ForwardPhase::PingAllowed),
        Some("ALLOW scenario OK (src\u{2192}dst permitted)")
    );
    assert_eq!(forward_passed(ForwardPhase::Baseline), None);
    assert_eq!(forward_passed(ForwardPhase::Topology), None);
}
