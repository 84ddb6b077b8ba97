use std::cell::RefCell;
use std::rc::Rc;

use calico::dataplane::{
    ApplyOutcome, DataplaneError, DataplaneState, InternalDataplane, Manager,
};
use calico::ipset_manager::IpSetManager;
use calico::managers::NodeManager;
use calico::messages::{
    IpSetKind, IpSetUpdate, RouteType, RouteUpdate, ToDataplane, ToDataplaneView,
};
use calico::policy_table::PolicyTableManager;
use calico::route_manager::RouteManager;

#[derive(Default)]
struct Record {
    seen: Vec<ToDataplane>,
    apply_calls: usize,
    fail_next: usize,
}

type Handle = Rc<RefCell<Record>>;

struct MockManager {
    rec: Handle,
    filter: fn(&ToDataplane) -> bool,
}

impl MockManager {
    fn new(filter: fn(&ToDataplane) -> bool) -> (Self, Handle) {
        let rec = Rc::new(RefCell::new(Record::default()));
        (
            Self {
                rec: Rc::clone(&rec),
                filter,
            },
            rec,
        )
    }

    fn complete_deferred_work(&mut self) -> Result<(), DataplaneError> {
        let mut r = self.rec.borrow_mut();
        r.apply_calls += 1;
        if r.fail_next > 0 {
            r.fail_next -= 1;
            return Err(DataplaneError::new("mock failure"));
        }
        Ok(())
    }
}

impl Manager for MockManager {
    type State = ();

    fn state(&self) {}

    fn absorb(_: (), _: ToDataplaneView) {}

    fn valid(&self) -> bool {
        true
    }

    fn on_update(&mut self, msg: &ToDataplane) {
        if (self.filter)(msg) {
            self.rec.borrow_mut().seen.push(msg.clone());
        }
    }
}

fn apply_all(dp: &mut InternalDataplane<MockManager>, now: u64) -> ApplyOutcome {
    let results = dp
        .managers
        .iter_mut()
        .map(|m| m.complete_deferred_work())
        .collect();
    dp.apply_all(now, results)
}

fn accept_all(_: &ToDataplane) -> bool {
    true
}

fn only_routes(m: &ToDataplane) -> bool {
    matches!(m, ToDataplane::RouteUpdate(_) | ToDataplane::RouteRemove(_))
}

fn ipset_msg(id: &str) -> ToDataplane {
    ToDataplane::IpSetUpdate(IpSetUpdate {
        id: id.into(),
        kind: IpSetKind::Ip,
        members: vec![],
    })
}

fn route_msg(dst: &str) -> ToDataplane {
    ToDataplane::RouteUpdate(RouteUpdate {
        route_type: RouteType::LocalWorkload,
        dst: dst.into(),
        dst_node_name: None,
        gateway: None,
    })
}

#[test]
fn dispatch_fans_out_on_update_to_all_managers() {
    let mut dp = InternalDataplane::new();
    let (m1, h1) = MockManager::new(accept_all);
    let (m2, h2) = MockManager::new(accept_all);
    dp.add_manager(m1);
    dp.add_manager(m2);

    dp.dispatch(&ipset_msg("s1"));

    assert_eq!(h1.borrow().seen.len(), 1);
    assert_eq!(h2.borrow().seen.len(), 1);
    assert!(
        dp.needs_apply(),
        "a message should mark the dataplane dirty"
    );
    assert_eq!(dp.manager_count(), 2);
}

#[test]
fn burst_coalesces_to_single_apply() {
    let mut dp = InternalDataplane::with_throttle(1);
    let (m, h) = MockManager::new(accept_all);
    dp.add_manager(m);

    // Five messages at the same tick.
    for i in 0..5 {
        dp.dispatch(&ipset_msg(&format!("s{i}")));
    }
    assert!(h.borrow().seen.len() == 5, "on_update runs per message");

    // One round at tick 0.
    assert!(dp.should_apply(0));
    apply_all(&mut dp, 0);

    assert_eq!(
        h.borrow().apply_calls,
        1,
        "N messages in a burst must coalesce to ONE complete_deferred_work"
    );
    assert!(!dp.needs_apply(), "clean apply clears the dirty flag");
    assert!(
        !dp.should_apply(0),
        "no further apply owed within the same interval"
    );
}

#[test]
fn insync_forces_apply_and_reports_readiness() {
    let mut dp = InternalDataplane::with_throttle(100);
    let (m, _h) = MockManager::new(accept_all);
    dp.add_manager(m);

    dp.dispatch(&ipset_msg("s1"));
    apply_all(&mut dp, 0);
    assert!(!dp.is_ready());

    // Not in sync yet, throttled within the interval.
    dp.dispatch(&ipset_msg("s2"));
    assert!(!dp.should_apply(1), "throttled before InSync");

    dp.dispatch(&ToDataplane::InSync);
    assert!(
        dp.should_apply(1),
        "InSync forces an apply despite throttle"
    );
    let outcome = apply_all(&mut dp, 1);
    assert!(
        outcome.became_ready,
        "clean apply after InSync reports ready"
    );
    assert!(dp.is_ready());

    // Readiness is reported once.
    dp.dispatch(&ipset_msg("s3"));
    dp.dispatch(&ToDataplane::InSync);
    let outcome2 = apply_all(&mut dp, 2);
    assert!(!outcome2.became_ready, "readiness reported only once");
}

#[test]
fn failed_manager_is_retried_without_state_loss_then_stops() {
    let mut dp = InternalDataplane::with_throttle(1);
    let (m, h) = MockManager::new(accept_all);
    h.borrow_mut().fail_next = 1;
    dp.add_manager(m);

    dp.dispatch(&route_msg("10.0.0.0/24"));

    // The first round fails.
    assert!(dp.should_apply(0));
    let o0 = apply_all(&mut dp, 0);
    assert!(!o0.is_clean(), "manager failed this round");
    assert!(
        dp.needs_apply(),
        "failed apply stays dirty (state not lost)"
    );
    assert_eq!(h.borrow().seen.len(), 1, "absorbed state is retained");

    // The next one succeeds.
    assert!(dp.should_apply(5), "retry is scheduled after backoff");
    let o1 = apply_all(&mut dp, 5);
    assert!(o1.is_clean(), "retry succeeds");
    assert!(!dp.needs_apply(), "clean retry clears dirty");
    assert_eq!(h.borrow().apply_calls, 2, "one fail + one success");

    // Nothing new: no further rounds.
    assert!(!dp.should_apply(6));
}

#[test]
fn managers_self_filter_messages() {
    let mut dp = InternalDataplane::new();
    let (route_mgr, rh) = MockManager::new(only_routes);
    dp.add_manager(route_mgr);

    dp.dispatch(&ipset_msg("s1"));
    dp.dispatch(&route_msg("10.0.0.0/24"));

    let seen = &rh.borrow().seen;
    assert_eq!(seen.len(), 1, "route manager ignores IP-set updates");
    assert!(matches!(seen[0], ToDataplane::RouteUpdate(_)));
}

#[test]
fn arrival_order_is_preserved_into_on_update() {
    let mut dp = InternalDataplane::new();
    let (m, h) = MockManager::new(accept_all);
    dp.add_manager(m);

    dp.dispatch(&ipset_msg("s1"));
    dp.dispatch(&route_msg("10.0.0.0/24"));
    dp.dispatch(&ToDataplane::InSync);

    let seen = &h.borrow().seen;
    assert_eq!(seen.len(), 3);
    assert!(matches!(seen[0], ToDataplane::IpSetUpdate(_)));
    assert!(matches!(seen[1], ToDataplane::RouteUpdate(_)));
    assert!(matches!(seen[2], ToDataplane::InSync));
}

#[test]
fn sink_impl_queues_without_programming() {
    let mut dp = InternalDataplane::new();
    let (m, h) = MockManager::new(accept_all);
    dp.add_manager(m);

    dp.dispatch(&ipset_msg("s1"));
    assert_eq!(h.borrow().seen.len(), 1);
    assert_eq!(h.borrow().apply_calls, 0, "sink apply does not reconcile");
    assert!(dp.needs_apply());
}

#[test]
fn the_pause_doubles_up_to_its_limit() {
    let mut s = DataplaneState::new(0);
    assert_eq!(s.min_apply_interval, 1);
    let mut pauses = Vec::new();
    for _ in 0..6 {
        s.mark_dirty();
        s.begin_apply();
        assert!(!s.end_apply(100, true));
        pauses.push(s.next_eligible - 100);
    }
    assert_eq!(pauses, vec![1, 2, 4, 8, 10, 10]);
    assert!(s.needs_apply());
    assert!(!s.should_apply(109));
    assert!(s.should_apply(110));
    s.begin_apply();
    assert!(!s.end_apply(110, false));
    assert_eq!((s.consecutive_failures, s.next_eligible), (0, 111));
    // Time does not wrap around.
    s.end_apply(u64::MAX, true);
    assert_eq!(s.next_eligible, u64::MAX);
}

#[test]
fn a_failed_round_does_not_report_readiness() {
    let mut s = DataplaneState::default();
    s.mark_in_sync();
    s.begin_apply();
    assert!(!s.end_apply(0, true));
    assert!(!s.in_sync_reported);
    s.begin_apply();
    assert!(s.end_apply(1, false));
    s.begin_apply();
    assert!(!s.end_apply(2, false));
}

#[test]
fn errors_carry_the_position_of_their_manager() {
    let mut dp = InternalDataplane::with_throttle(1);
    for _ in 0..3 {
        dp.add_manager(MockManager::new(accept_all).0);
    }
    let outcome = dp.apply_all(
        0,
        vec![
            Ok(()),
            Err(DataplaneError::new("a")),
            Err(DataplaneError::from("b")),
        ],
    );
    assert_eq!(
        outcome.errors,
        vec![(1, DataplaneError::new("a")), (2, DataplaneError::new("b"))]
    );
    assert_eq!(DataplaneError::new("x").text(), "dataplane error: x");
    assert_eq!(DataplaneError::from("x".to_string()), DataplaneError::new("x"));
    assert!(ApplyOutcome::default().is_clean());
}

#[test]
fn managers_of_several_kinds_share_a_dataplane() {
    let mut dp = InternalDataplane::new();
    dp.add_manager(NodeManager::Table(PolicyTableManager::new()));
    dp.add_manager(NodeManager::IpSets(IpSetManager::new()));
    dp.add_manager(NodeManager::Routes(RouteManager::new()));
    dp.dispatch(&ipset_msg("s1"));
    dp.dispatch(&route_msg("10.0.0.0/24"));
    match &dp.managers[0] {
        NodeManager::Table(m) => assert_eq!(m.set_count(), 1),
        _ => panic!("expected the table"),
    }
    match &dp.managers[1] {
        NodeManager::IpSets(m) => assert_eq!(m.desired_len(), 1),
        _ => panic!("expected the sets"),
    }
    match &dp.managers[2] {
        NodeManager::Routes(m) => assert_eq!(m.desired_len(), 1),
        _ => panic!("expected the routes"),
    }
}

#[test]
fn pauses_double_up_to_the_longest() {
    let mut s = DataplaneState::new(5);
    let pauses: [u64; 7] = [1, 2, 4, 8, 10, 10, 10];
    for (n, pause) in pauses.into_iter().enumerate() {
        let now = 100 * (n as u64 + 1);
        s.mark_dirty();
        s.begin_apply();
        assert!(!s.end_apply(now, true));
        assert!(s.needs_apply());
        assert!(!s.should_apply(now + pause - 1));
        assert!(s.should_apply(now + pause));
    }
    // A success starts the count anew.
    s.end_apply(1000, false);
    s.end_apply(2000, true);
    assert!(s.should_apply(2001));
}

#[test]
fn readiness_is_reported_once_in_a_run() {
    let mut s = DataplaneState::default();
    let mut reports = 0;
    s.mark_dirty();
    for round in 0..8u64 {
        if round == 2 || round == 5 {
            s.mark_in_sync();
        }
        s.begin_apply();
        // The rounds 2 and 3 fail.
        let became_ready = s.end_apply(round, round == 2 || round == 3);
        assert_eq!(became_ready, round == 4);
        if became_ready {
            reports += 1;
        }
    }
    assert_eq!(reports, 1);
}

#[test]
fn the_default_dataplane_is_a_new_one() {
    let mut dp: InternalDataplane<NodeManager> = InternalDataplane::default();
    assert_eq!(dp.manager_count(), 0);
    assert!(!dp.needs_apply());
    assert!(!dp.is_ready());
    dp.dispatch(&ipset_msg("s1"));
    assert!(dp.should_apply(0));
    assert!(dp.apply_all(7, vec![]).is_clean());
    dp.dispatch(&ipset_msg("s1"));
    assert!(!dp.should_apply(7));
    assert!(dp.should_apply(8));
}
