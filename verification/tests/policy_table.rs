use calico::dataplane::{DataplaneError, Manager};
use calico::endpoint_manager::build_desired_chains;
use calico::ipset_manager::set_name_for;
use calico::messages::{
    IpSetDeltaUpdate, IpSetKind, IpSetUpdate, Policy, PolicyId, PolicyRule, RuleAction, TierInfo,
    ToDataplane, WorkloadEndpoint, WorkloadEndpointId,
};
use calico::ordmap::OrdMap;
use calico::policy_table::{count_chain_kinds, PolicyTableManager};

#[derive(Default)]
struct SpyApplier {
    docs: Vec<String>,
    fail: bool,
}

impl SpyApplier {
    fn apply_document(&mut self, doc: &str) -> Result<(), String> {
        if self.fail {
            return Err("spy: injected failure".into());
        }
        self.docs.push(doc.to_owned());
        Ok(())
    }

    fn last(&self) -> String {
        self.docs.last().cloned().unwrap_or_default()
    }

    fn count(&self) -> usize {
        self.docs.len()
    }
}

fn complete(mgr: &mut PolicyTableManager, spy: &mut SpyApplier) -> Result<(), DataplaneError> {
    match mgr.plan().document {
        Some(doc) => {
            let outcome = spy.apply_document(&doc);
            mgr.complete_deferred_work(doc, outcome)
        }
        None => Ok(()),
    }
}

fn fixture() -> (PolicyTableManager, SpyApplier) {
    (PolicyTableManager::new(), SpyApplier::default())
}

fn ipset(id: &str, kind: IpSetKind, members: &[&str]) -> ToDataplane {
    ToDataplane::IpSetUpdate(IpSetUpdate {
        id: id.into(),
        kind,
        members: members.iter().map(|s| s.to_string()).collect(),
    })
}

fn allow_from_set(set_id: &str) -> Policy {
    Policy {
        inbound_rules: vec![PolicyRule {
            action_field: Some(RuleAction::Allow),
            src_ip_set_ids: vec![set_id.into()],
            ..Default::default()
        }],
        outbound_rules: vec![],
    }
}

fn allow_all_profile() -> Policy {
    Policy {
        inbound_rules: vec![PolicyRule::action(RuleAction::Allow)],
        outbound_rules: vec![PolicyRule::action(RuleAction::Allow)],
    }
}

fn pol_update(tier: &str, name: &str, policy: Policy) -> ToDataplane {
    ToDataplane::ActivePolicyUpdate {
        id: PolicyId {
            tier: tier.into(),
            name: name.into(),
        },
        policy,
    }
}

fn prof_update(id: &str, profile: Policy) -> ToDataplane {
    ToDataplane::ActiveProfileUpdate {
        id: id.into(),
        profile,
    }
}

fn wep_update(iface: &str, ep: WorkloadEndpoint) -> ToDataplane {
    ToDataplane::WorkloadEndpointUpdate {
        id: WorkloadEndpointId {
            orchestrator: "k8s".into(),
            workload: "ns/pod".into(),
            endpoint: iface.into(),
        },
        endpoint: ep,
    }
}

fn endpoint_with_ingress(iface: &str, tier: &str, policies: &[&str]) -> WorkloadEndpoint {
    WorkloadEndpoint {
        name: iface.into(),
        tiers: vec![TierInfo {
            name: tier.into(),
            ingress_policies: policies.iter().map(|s| s.to_string()).collect(),
            egress_policies: vec![],
        }],
        ..Default::default()
    }
}

fn endpoint_with_profiles(iface: &str, profiles: &[&str]) -> WorkloadEndpoint {
    WorkloadEndpoint {
        name: iface.into(),
        profile_ids: profiles.iter().map(|s| s.to_string()).collect(),
        ..Default::default()
    }
}

#[test]
fn full_render_is_atomic_ordered_and_delete_free() {
    let (mut mgr, mut spy) = fixture();

    mgr.on_update(&ipset("s:web", IpSetKind::Ip, &["10.0.0.5"]));
    mgr.on_update(&ipset("s:empty", IpSetKind::Ip, &[]));
    mgr.on_update(&pol_update("default", "allow-web", allow_from_set("s:web")));
    mgr.on_update(&wep_update(
        "cali123",
        endpoint_with_ingress("cali123", "default", &["allow-web"]),
    ));
    assert!(spy.count() == 0, "on_update must not touch the kernel");

    complete(&mut mgr, &mut spy).unwrap();
    let doc = spy.last();

    // The table is added, deleted (which cannot fail by now) and added again.
    assert!(doc.contains("add table inet calico"));
    assert!(doc.contains("delete table inet calico"));
    let add1 = doc.find("add table inet calico").unwrap();
    let del = doc.find("delete table inet calico").unwrap();
    assert!(
        add1 < del,
        "the table-level delete must be PRECEDED by add (restart-safe): {doc}"
    );

    // Both sets are declared, the empty one too.
    let web = set_name_for("s:web");
    let empty = set_name_for("s:empty");
    assert!(doc.contains(&format!("add set inet calico {web} {{ type ipv4_addr; }}")));
    assert!(doc.contains(&format!("add element inet calico {web} {{ 10.0.0.5 }}")));
    assert!(
        doc.contains(&format!(
            "add set inet calico {empty} {{ type ipv4_addr; }}"
        )),
        "empty-but-referenced set must still be declared: {doc}"
    );

    // The policy's chain refers to the set. Allowing does not end the traversal.
    assert!(doc.contains("add chain inet calico cali-pi-default-allow-web"));
    assert!(doc.contains(&format!(
        "add rule inet calico cali-pi-default-allow-web ip saddr @{web} meta mark set meta mark or 0x01000000 return"
    )));
    assert!(
        !doc.contains(&format!(
            "add rule inet calico cali-pi-default-allow-web ip saddr @{web} accept"
        )),
        "ALLOW must not render a terminal accept: {doc}"
    );

    // The endpoint's chain.
    let tw = "cali-tw-cali123";
    assert!(doc.contains(&format!(
        "add rule inet calico {tw} meta mark set meta mark and 0xfeffffff"
    )));
    assert!(doc.contains(&format!(
        "add rule inet calico {tw} jump cali-pi-default-allow-web"
    )));
    assert!(doc.contains(&format!(
        "add rule inet calico {tw} meta mark & 0x01000000 == 0x01000000 return"
    )));
    assert!(doc.contains(&format!(
        "add rule inet calico {tw} drop comment \"default deny (ingress)\""
    )));

    // The forward chain steers traffic to the pod into the endpoint's chain.
    assert!(doc.contains(
        "add chain inet calico cali-forward { type filter hook forward priority 0; policy accept; }"
    ));
    assert!(doc.contains(&format!(
        "add rule inet calico cali-forward oifname \"cali123\" jump {tw}"
    )));

    assert!(
        !doc.contains("delete set") && !doc.contains("delete chain"),
        "the full render must contain no per-object delete statements: {doc}"
    );

    // Table, sets, chains, rules, in this order.
    let rebuild = doc.rfind("add table inet calico").unwrap();
    let first_set = doc.find("add set").unwrap();
    let first_chain = doc.find("add chain").unwrap();
    let last_chain = doc.rfind("add chain").unwrap();
    let first_rule = doc.find("add rule").unwrap();
    assert!(rebuild < first_set, "table rebuilt before sets");
    assert!(first_set < first_chain, "sets declared before chains");
    assert!(
        last_chain < first_rule,
        "every add chain precedes every add rule"
    );
}

#[test]
fn identical_desired_state_renders_identical_document() {
    let a = {
        let mut m = PolicyTableManager::new();
        m.on_update(&ipset("s:web", IpSetKind::Ip, &["10.0.0.5"]));
        m.on_update(&pol_update("default", "allow-web", allow_from_set("s:web")));
        m.on_update(&wep_update(
            "cali123",
            endpoint_with_ingress("cali123", "default", &["allow-web"]),
        ));
        m.render()
    };
    let b = {
        let mut m = PolicyTableManager::new();
        m.on_update(&wep_update(
            "cali123",
            endpoint_with_ingress("cali123", "default", &["allow-web"]),
        ));
        m.on_update(&pol_update("default", "allow-web", allow_from_set("s:web")));
        m.on_update(&ipset("s:web", IpSetKind::Ip, &["10.0.0.5"]));
        m.render()
    };
    assert_eq!(
        a, b,
        "render depends only on desired state, not arrival order"
    );
}

#[test]
fn skip_if_unchanged_does_not_reflush_steady_state() {
    let (mut mgr, mut spy) = fixture();
    mgr.on_update(&ipset("s:web", IpSetKind::Ip, &["10.0.0.5"]));
    mgr.on_update(&pol_update("default", "allow-web", allow_from_set("s:web")));

    complete(&mut mgr, &mut spy).unwrap();
    assert_eq!(spy.count(), 1, "first reconcile programs the table once");

    complete(&mut mgr, &mut spy).unwrap();
    complete(&mut mgr, &mut spy).unwrap();
    assert_eq!(spy.count(), 1, "steady state is not re-flushed every tick");
}

#[test]
fn a_change_reapplies_the_full_document() {
    let (mut mgr, mut spy) = fixture();
    mgr.on_update(&ipset("s:web", IpSetKind::Ip, &["10.0.0.5"]));
    complete(&mut mgr, &mut spy).unwrap();
    assert_eq!(spy.count(), 1);

    mgr.on_update(&ipset("s:web", IpSetKind::Ip, &["10.0.0.5", "10.0.0.6"]));
    complete(&mut mgr, &mut spy).unwrap();
    assert_eq!(spy.count(), 2, "a changed render re-applies");
    assert!(spy.last().contains("10.0.0.6"));
}

#[test]
fn render_is_self_healing_independent_of_history() {
    let mut churned = PolicyTableManager::new();
    churned.on_update(&ipset("s:old", IpSetKind::Ip, &["1.1.1.1"]));
    churned.on_update(&pol_update("default", "stale", allow_from_set("s:old")));
    churned.on_update(&wep_update(
        "caliOLD",
        endpoint_with_ingress("caliOLD", "default", &["stale"]),
    ));
    churned.on_update(&ToDataplane::IpSetRemove("s:old".into()));
    churned.on_update(&ToDataplane::ActivePolicyRemove(PolicyId {
        tier: "default".into(),
        name: "stale".into(),
    }));
    churned.on_update(&ToDataplane::WorkloadEndpointRemove(WorkloadEndpointId {
        orchestrator: "k8s".into(),
        workload: "ns/pod".into(),
        endpoint: "caliOLD".into(),
    }));
    churned.on_update(&ipset("s:web", IpSetKind::Ip, &["10.0.0.5"]));
    churned.on_update(&pol_update("default", "allow-web", allow_from_set("s:web")));
    churned.on_update(&wep_update(
        "cali123",
        endpoint_with_ingress("cali123", "default", &["allow-web"]),
    ));

    let mut fresh = PolicyTableManager::new();
    fresh.on_update(&ipset("s:web", IpSetKind::Ip, &["10.0.0.5"]));
    fresh.on_update(&pol_update("default", "allow-web", allow_from_set("s:web")));
    fresh.on_update(&wep_update(
        "cali123",
        endpoint_with_ingress("cali123", "default", &["allow-web"]),
    ));

    let churned_doc = churned.render();
    let fresh_doc = fresh.render();
    assert_eq!(
        churned_doc, fresh_doc,
        "render depends only on desired state, not history"
    );
    assert!(!churned_doc.contains(&set_name_for("s:old")));
    assert!(!churned_doc.contains("stale"));
    assert!(!churned_doc.contains("caliOLD"));
}

#[test]
fn open_by_default_profile_is_jumped_when_no_policy_selects() {
    let (mut mgr, mut spy) = fixture();
    mgr.on_update(&prof_update("kns.nettest", allow_all_profile()));
    mgr.on_update(&wep_update(
        "cali123",
        endpoint_with_profiles("cali123", &["kns.nettest"]),
    ));
    complete(&mut mgr, &mut spy).unwrap();
    let doc = spy.last();

    assert!(doc.contains("add chain inet calico cali-pri-kns.nettest"));
    assert!(doc.contains(
        "add rule inet calico cali-pri-kns.nettest meta mark set meta mark or 0x01000000 return"
    ));
    assert!(
        !doc.contains("add rule inet calico cali-pri-kns.nettest accept"),
        "profile ALLOW must not render a terminal accept: {doc}"
    );

    let tw = "cali-tw-cali123";
    let jump = doc
        .find(&format!(
            "add rule inet calico {tw} jump cali-pri-kns.nettest"
        ))
        .expect("dispatch jumps to ingress profile chain");
    let ret = doc
        .find(&format!(
            "add rule inet calico {tw} meta mark & 0x01000000 == 0x01000000 return"
        ))
        .expect("return-if-accepted after the profile jump");
    let drop = doc
        .find(&format!(
            "add rule inet calico {tw} drop comment \"default deny (ingress)\""
        ))
        .expect("dispatch still has final default deny");
    assert!(jump < ret, "return-if-accepted follows the profile jump");
    assert!(ret < drop, "default deny is last");
}

#[test]
fn forward_chain_jumps_both_directions_and_falls_through() {
    let (mut mgr, mut spy) = fixture();
    mgr.on_update(&prof_update("kns.nettest", allow_all_profile()));
    mgr.on_update(&wep_update(
        "cali123",
        endpoint_with_profiles("cali123", &["kns.nettest"]),
    ));
    complete(&mut mgr, &mut spy).unwrap();
    let doc = spy.last();

    assert!(doc.contains(
        "add chain inet calico cali-forward { type filter hook forward priority 0; policy accept; }"
    ));
    assert!(doc
        .contains("add rule inet calico cali-forward iifname \"cali123\" jump cali-fw-cali123"));
    assert!(doc
        .contains("add rule inet calico cali-forward oifname \"cali123\" jump cali-tw-cali123"));
    assert!(
        !doc.contains("add rule inet calico cali-forward accept"),
        "cali-forward must accept only via fall-through, not a terminal rule: {doc}"
    );
}

#[test]
fn policy_selected_endpoint_does_not_fall_through_to_profile() {
    let (mut mgr, mut spy) = fixture();
    mgr.on_update(&pol_update("default", "allow-web", allow_from_set("s:web")));
    mgr.on_update(&prof_update("kns.nettest", allow_all_profile()));
    let mut ep = endpoint_with_ingress("cali123", "default", &["allow-web"]);
    ep.profile_ids = vec!["kns.nettest".into()];
    mgr.on_update(&wep_update("cali123", ep));
    complete(&mut mgr, &mut spy).unwrap();

    let doc = spy.last();
    let tw = "cali-tw-cali123";
    assert!(
        doc.contains(&format!(
            "add rule inet calico {tw} jump cali-pi-default-allow-web"
        )),
        "ingress jumps the selecting policy: {doc}"
    );
    assert!(
        !doc.contains(&format!(
            "add rule inet calico {tw} jump cali-pri-kns.nettest"
        )),
        "policy-selected ingress must NOT fall through to the profile: {doc}"
    );
    assert!(doc.contains(&format!(
        "add rule inet calico {tw} drop comment \"default deny (ingress)\""
    )));
}

#[test]
fn profile_fallback_is_per_direction() {
    let (mut mgr, mut spy) = fixture();
    mgr.on_update(&pol_update("default", "allow-web", allow_from_set("s:web")));
    mgr.on_update(&prof_update("kns.nettest", allow_all_profile()));
    let mut ep = endpoint_with_ingress("cali123", "default", &["allow-web"]);
    ep.profile_ids = vec!["kns.nettest".into()];
    mgr.on_update(&wep_update("cali123", ep));
    complete(&mut mgr, &mut spy).unwrap();

    let doc = spy.last();
    let tw = "cali-tw-cali123";
    let fw = "cali-fw-cali123";
    assert!(doc.contains(&format!(
        "add rule inet calico {tw} jump cali-pi-default-allow-web"
    )));
    assert!(
        !doc.contains(&format!(
            "add rule inet calico {tw} jump cali-pri-kns.nettest"
        )),
        "ingress is policy-governed → no profile fallback: {doc}"
    );
    let prof = doc
        .find(&format!(
            "add rule inet calico {fw} jump cali-pro-kns.nettest"
        ))
        .expect("egress falls back to the profile chain");
    let drop = doc
        .find(&format!(
            "add rule inet calico {fw} drop comment \"default deny (egress)\""
        ))
        .expect("egress default deny");
    assert!(prof < drop, "egress profile jump precedes its default deny");
}

#[test]
fn failed_apply_does_not_cache_and_retries_same_document() {
    let (mut mgr, mut spy) = fixture();
    mgr.on_update(&pol_update("default", "allow-web", allow_from_set("s:web")));

    spy.fail = true;
    assert!(complete(&mut mgr, &mut spy).is_err());

    spy.fail = false;
    spy.docs.clear();
    complete(&mut mgr, &mut spy).unwrap();
    assert_eq!(
        spy.count(),
        1,
        "retry re-applies (cache not poisoned by failure)"
    );
    assert!(spy.last().contains("cali-pi-default-allow-web"));
}

#[test]
fn empty_desired_state_still_programs_the_bare_table() {
    let (mut mgr, mut spy) = fixture();
    complete(&mut mgr, &mut spy).unwrap();
    let doc = spy.last();
    assert!(doc.contains("add table inet calico"));
    assert!(doc.contains("delete table inet calico"));
    assert!(!doc.contains("delete set") && !doc.contains("delete chain"));
}

#[test]
fn non_policy_messages_are_ignored() {
    let mut mgr = PolicyTableManager::new();
    mgr.on_update(&ToDataplane::RouteRemove("10.0.0.0/24".into()));
    assert_eq!(mgr.set_count(), 0);
    assert_eq!(mgr.policy_count(), 0);
    assert_eq!(mgr.endpoint_count(), 0);
}

#[test]
fn deltas_change_the_members_of_a_set() {
    let mut mgr = PolicyTableManager::new();
    mgr.on_update(&ipset("s", IpSetKind::Ip, &["10.0.0.1", "10.0.0.2"]));
    mgr.on_update(&ToDataplane::IpSetDeltaUpdate(IpSetDeltaUpdate {
        id: "s".into(),
        added_members: vec!["10.0.0.3".into()],
        removed_members: vec!["10.0.0.1".into()],
    }));
    let doc = mgr.render();
    assert!(doc.contains("{ 10.0.0.2, 10.0.0.3 }"));
    assert!(!doc.contains("10.0.0.1"));
}

#[test]
fn chains_are_counted_by_kind() {
    let mut policies: OrdMap<PolicyId, Policy> = OrdMap::new();
    policies.insert(
        PolicyId {
            tier: "default".into(),
            name: "p".into(),
        },
        allow_all_profile(),
    );
    let mut profiles: OrdMap<String, Policy> = OrdMap::new();
    profiles.insert("kns.a".to_string(), allow_all_profile());
    let mut endpoints: OrdMap<WorkloadEndpointId, WorkloadEndpoint> = OrdMap::new();
    endpoints.insert(
        WorkloadEndpointId {
            orchestrator: "k8s".into(),
            workload: "ns/pod".into(),
            endpoint: "cali1".into(),
        },
        endpoint_with_profiles("cali1", &["kns.a"]),
    );
    let chains = build_desired_chains(&policies, &profiles, &endpoints);
    assert_eq!(count_chain_kinds(&chains), (2, 2, 2));
}

#[test]
fn an_empty_state_is_announced_once() {
    let mut mgr = PolicyTableManager::new();
    assert!(mgr.plan().announce_empty);
    assert!(!mgr.plan().announce_empty);
    let (mut busy, _) = fixture();
    busy.on_update(&ipset("s", IpSetKind::Ip, &[]));
    assert!(!busy.plan().announce_empty);
}

#[test]
fn a_document_is_applied_until_it_is_taken() {
    let mut mgr = PolicyTableManager::new();
    mgr.on_update(&ipset("s:web", IpSetKind::Ip, &["10.0.0.5"]));
    let doc = mgr.plan().document.unwrap();
    // Refused: the same document is planned again.
    assert!(mgr
        .complete_deferred_work(doc.clone(), Err("no".to_string()))
        .is_err());
    assert_eq!(mgr.plan().document, Some(doc.clone()));
    // Taken: nothing is planned until the document changes.
    mgr.complete_deferred_work(doc.clone(), Ok(())).unwrap();
    assert_eq!(mgr.plan().document, None);
    mgr.on_update(&ipset("s:web", IpSetKind::Ip, &["10.0.0.5"]));
    assert_eq!(mgr.plan().document, None);
    mgr.on_update(&ipset("s:web", IpSetKind::Ip, &["10.0.0.6"]));
    let changed = mgr.plan().document.unwrap();
    assert_ne!(changed, doc);
    // And back: what is compared is what was taken last.
    mgr.on_update(&ipset("s:web", IpSetKind::Ip, &["10.0.0.5"]));
    assert_eq!(mgr.plan().document, None);
}
