use calico::dataplane::{DataplaneError, Manager};
use calico::messages::{IpSetKind, IpSetUpdate, RouteType, RouteUpdate, ToDataplane};
use calico::pools::{parse_ipv4, IpAddress};
use calico::route_manager::{
    parse_cidr, split_cidr, OpOutcome, RoundStep, RouteManager, RouteOp, RouteValue,
};

/// The address that a text denotes, for the addresses that occur here.
fn address(text: &str) -> Option<IpAddress> {
    match text {
        "fd00:9::" => Some(IpAddress::V6(0xfd00_0009_0000_0000_0000_0000_0000_0000)),
        "fd00::" => Some(IpAddress::V6(0xfd00_0000_0000_0000_0000_0000_0000_0000)),
        _ => parse_ipv4(text).map(IpAddress::V4),
    }
}

fn parse(cidr: &str) -> Result<(IpAddress, u8), String> {
    parse_cidr(cidr, address(&split_cidr(cidr).0))
}

#[derive(Default)]
struct SpyProgrammer {
    adds: Vec<String>,
    dels: Vec<String>,
    fail: bool,
}

impl SpyProgrammer {
    fn clear(&mut self) {
        self.adds.clear();
        self.dels.clear();
    }

    fn program(&mut self, op: &RouteOp) -> OpOutcome {
        if parse(op.dst()).is_err() {
            return OpOutcome::Malformed;
        }
        if self.fail {
            return OpOutcome::Failed("spy: injected failure".into());
        }
        match op {
            RouteOp::Add { dst, .. } => self.adds.push(dst.clone()),
            RouteOp::Delete { dst } => self.dels.push(dst.clone()),
        }
        OpOutcome::Done
    }
}

fn complete(mgr: &mut RouteManager, spy: &mut SpyProgrammer) -> Result<(), DataplaneError> {
    for op in mgr.pending_ops() {
        let outcome = spy.program(&op);
        mgr.complete_deferred_work(&op, outcome)?;
    }
    Ok(())
}

fn fixture() -> (RouteManager, SpyProgrammer) {
    (RouteManager::new(), SpyProgrammer::default())
}

fn remote_route(dst: &str, gw: &str) -> ToDataplane {
    ToDataplane::RouteUpdate(RouteUpdate {
        route_type: RouteType::RemoteWorkload,
        dst: dst.into(),
        dst_node_name: Some("node-b".into()),
        gateway: Some(gw.into()),
    })
}

#[test]
fn new_route_is_pending_then_programmed_once() {
    let (mut mgr, mut spy) = fixture();

    mgr.on_update(&remote_route("192.168.9.0/24", "10.0.0.2"));
    assert_eq!(mgr.pending_count(), 1, "one route awaits programming");
    assert!(spy.adds.is_empty(), "on_update must not touch the kernel");

    complete(&mut mgr, &mut spy).unwrap();
    assert_eq!(spy.adds, vec!["192.168.9.0/24".to_string()]);
    assert!(spy.dels.is_empty());
    assert_eq!(mgr.pending_count(), 0, "fully reconciled after apply");
}

#[test]
fn route_manager_apply_twice_second_delta_is_empty() {
    let (mut mgr, mut spy) = fixture();

    mgr.on_update(&remote_route("192.168.9.0/24", "10.0.0.2"));
    complete(&mut mgr, &mut spy).unwrap();
    assert_eq!(spy.adds.len(), 1);

    spy.clear();
    complete(&mut mgr, &mut spy).unwrap();
    assert!(
        spy.adds.is_empty() && spy.dels.is_empty(),
        "idempotent re-apply must program nothing"
    );
}

#[test]
fn remove_programs_a_single_del() {
    let (mut mgr, mut spy) = fixture();

    mgr.on_update(&remote_route("192.168.9.0/24", "10.0.0.2"));
    complete(&mut mgr, &mut spy).unwrap();
    spy.clear();

    mgr.on_update(&ToDataplane::RouteRemove("192.168.9.0/24".into()));
    assert_eq!(mgr.pending_count(), 1, "one deletion pending");
    complete(&mut mgr, &mut spy).unwrap();

    assert!(spy.adds.is_empty(), "removal adds nothing");
    assert_eq!(spy.dels, vec!["192.168.9.0/24".to_string()]);
    assert_eq!(mgr.pending_count(), 0);
}

#[test]
fn changed_gateway_reprograms_the_route() {
    let (mut mgr, mut spy) = fixture();

    mgr.on_update(&remote_route("192.168.9.0/24", "10.0.0.2"));
    complete(&mut mgr, &mut spy).unwrap();
    spy.clear();

    mgr.on_update(&remote_route("192.168.9.0/24", "10.0.0.3"));
    assert_eq!(mgr.pending_count(), 1);
    complete(&mut mgr, &mut spy).unwrap();
    assert_eq!(spy.adds, vec!["192.168.9.0/24".to_string()]);
    assert!(spy.dels.is_empty());
}

#[test]
fn ipv6_route_is_programmed() {
    let (mut mgr, mut spy) = fixture();

    mgr.on_update(&remote_route("fd00:9::/64", "fd00::2"));
    complete(&mut mgr, &mut spy).unwrap();
    assert_eq!(spy.adds, vec!["fd00:9::/64".to_string()]);
}

#[test]
fn non_route_messages_are_ignored() {
    let (mut mgr, mut spy) = fixture();

    mgr.on_update(&ToDataplane::IpSetUpdate(IpSetUpdate {
        id: "s1".into(),
        kind: IpSetKind::Ip,
        members: vec![],
    }));
    mgr.on_update(&ToDataplane::InSync);
    assert_eq!(mgr.desired_len(), 0, "route manager self-filters");

    complete(&mut mgr, &mut spy).unwrap();
    assert!(spy.adds.is_empty() && spy.dels.is_empty());
}

#[test]
fn failed_programming_leaves_route_pending_for_retry() {
    let (mut mgr, mut spy) = fixture();

    mgr.on_update(&remote_route("192.168.9.0/24", "10.0.0.2"));
    spy.fail = true;
    let err = complete(&mut mgr, &mut spy);
    assert!(err.is_err(), "netlink failure surfaces as DataplaneError");
    assert_eq!(mgr.pending_count(), 1, "state retained for retry");

    spy.fail = false;
    complete(&mut mgr, &mut spy).unwrap();
    assert_eq!(spy.adds, vec!["192.168.9.0/24".to_string()]);
    assert_eq!(mgr.pending_count(), 0);
}

#[test]
fn parse_cidr_handles_v4_v6_and_bare() {
    assert_eq!(
        parse("10.0.0.0/24").unwrap(),
        (IpAddress::V4(0x0a00_0000), 24)
    );
    assert_eq!(parse("10.0.0.5").unwrap(), (IpAddress::V4(0x0a00_0005), 32));
    assert_eq!(
        parse("fd00::/64").unwrap(),
        (
            IpAddress::V6(0xfd00_0000_0000_0000_0000_0000_0000_0000),
            64
        )
    );
    assert!(parse("not-an-ip").is_err());
    assert!(parse("10.0.0.0/99").is_err());
}

#[test]
fn malformed_destinations_are_named_and_dropped() {
    assert_eq!(
        parse("x/8").unwrap_err(),
        "invalid route destination address: \"x/8\""
    );
    assert_eq!(
        parse("10.0.0.0/x").unwrap_err(),
        "invalid route prefix length: \"10.0.0.0/x\""
    );
    assert_eq!(
        parse("10.0.0.0/33").unwrap_err(),
        "route prefix length out of range: \"10.0.0.0/33\""
    );
    let (mut mgr, mut spy) = fixture();
    mgr.on_update(&remote_route("nonsense", "10.0.0.2"));
    complete(&mut mgr, &mut spy).unwrap();
    assert!(spy.adds.is_empty());
    assert_eq!(mgr.pending_count(), 0, "it is not tried for ever");
}

#[test]
fn values_are_compared_as_a_whole() {
    let u = RouteUpdate {
        route_type: RouteType::RemoteHost,
        dst: "10.0.0.0/24".into(),
        dst_node_name: None,
        gateway: Some("10.0.0.1".into()),
    };
    let v = RouteValue::from_update(&u);
    assert!(v.same(&RouteValue::from_update(&u)));
    assert!(!v.same(&RouteValue {
        route_type: RouteType::RemoteHost,
        gateway: None,
        dst_node_name: None,
    }));
}

/// Runs one round, in which the change at position `fail_at` fails. Gives the destinations
/// that were to be changed.
fn round(mgr: &mut RouteManager, fail_at: usize) -> (Vec<String>, Result<(), DataplaneError>) {
    let mut tried = Vec::new();
    let (mut round, mut step) = mgr.begin_round();
    loop {
        let op = match step {
            RoundStep::Over(end) => return (tried, end),
            RoundStep::Program(op) => op,
        };
        let outcome = if tried.len() == fail_at {
            OpOutcome::Failed("no".to_string())
        } else if parse(op.dst()).is_err() {
            OpOutcome::Malformed
        } else {
            OpOutcome::Done
        };
        tried.push(op.dst().clone());
        step = mgr.continue_round(&mut round, outcome);
    }
}

#[test]
fn a_failed_round_leaves_what_it_has_not_made() {
    let mut mgr = RouteManager::new();
    mgr.on_update(&remote_route("10.0.9.0/24", "10.1.1.1"));
    assert_eq!(round(&mut mgr, 99), (vec!["10.0.9.0/24".to_string()], Ok(())));
    mgr.on_update(&ToDataplane::RouteRemove("10.0.9.0/24".into()));
    mgr.on_update(&remote_route("10.0.1.0/24", "10.1.1.1"));
    mgr.on_update(&remote_route("10.0.2.0/24", "10.1.1.1"));
    mgr.on_update(&remote_route("not-a-route", "10.1.1.1"));
    assert_eq!(mgr.pending_count(), 4);

    // The second change fails: it, the malformed one and the deletion are left.
    let (tried, end) = round(&mut mgr, 1);
    assert_eq!(tried, ["10.0.1.0/24", "10.0.2.0/24"]);
    assert_eq!(end, Err(DataplaneError::new("no")));
    assert_eq!(mgr.pending_count(), 3);

    let (tried, end) = round(&mut mgr, 2);
    assert_eq!(tried, ["10.0.2.0/24", "not-a-route", "10.0.9.0/24"]);
    assert!(end.is_err());
    assert_eq!(mgr.pending_count(), 1);

    let (tried, end) = round(&mut mgr, 99);
    assert_eq!(tried, ["10.0.9.0/24"]);
    assert_eq!(end, Ok(()));
    assert_eq!(round(&mut mgr, 0), (vec![], Ok(())));
    assert_eq!(mgr.desired_len(), 3);
}
