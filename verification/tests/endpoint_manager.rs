use calico::endpoint_manager::{
    addr_alternatives, build_desired_chains, dispatch_chain_name, dispatch_rules,
    dispatch_targets, map_action, policy_chain_name, port_alternatives, profile_chain_name,
    render_rule, render_rules, sanitize, Direction, FORWARD_CHAIN,
};
use calico::ipset_manager::set_name_for;
use calico::messages::{
    Policy, PolicyId, PolicyRule, RuleAction, TierInfo, WorkloadEndpoint, WorkloadEndpointId,
};
use calico::nft::{NftChain, NftMatch, NftRule, Verdict};
use calico::ordmap::OrdMap;

#[test]
fn selector_peer_rule_renders_ip_saddr_set_match() {
    let rule = PolicyRule {
        action_field: Some(RuleAction::Allow),
        protocol: Some("TCP".into()),
        dst_ports: vec![80],
        src_ip_set_ids: vec!["s:frontend".into()],
        rule_id: Some("r0".into()),
        ..Default::default()
    };
    let rendered = render_rule(&rule);
    assert_eq!(rendered.len(), 1);
    let line = rendered[0].clone();
    // Allowing marks the packet and returns; it does not end the traversal.
    assert_eq!(line.verdict, Verdict::SetAcceptMarkReturn);
    let name = set_name_for("s:frontend");
    assert!(line.matches.contains(&NftMatch::SrcSet(name)));
    assert!(line.matches.contains(&NftMatch::L4Proto("tcp".into())));
    assert!(line.matches.contains(&NftMatch::DestPort(80)));
    assert_eq!(line.comment.as_deref(), Some("r0"));
}

#[test]
fn dst_set_and_nets_and_ports_render() {
    let rule = PolicyRule {
        action_field: Some(RuleAction::Allow),
        src_nets: vec!["10.0.0.0/24".into()],
        dst_ip_set_ids: vec!["s:db".into()],
        ..Default::default()
    };
    let rendered = render_rule(&rule);
    assert_eq!(rendered.len(), 1);
    assert!(rendered[0]
        .matches
        .contains(&NftMatch::SrcAddr("10.0.0.0/24".into())));
    assert!(rendered[0]
        .matches
        .contains(&NftMatch::DestSet(set_name_for("s:db"))));
}

#[test]
fn action_mapping_allow_deny_pass_log() {
    assert_eq!(
        map_action(RuleAction::Allow),
        Some(Verdict::SetAcceptMarkReturn)
    );
    assert_eq!(map_action(RuleAction::Deny), Some(Verdict::Drop));
    assert_eq!(map_action(RuleAction::Pass), Some(Verdict::Return));
    assert_eq!(map_action(RuleAction::Log), None);
    assert!(render_rule(&PolicyRule::action(RuleAction::Log)).is_empty());
}

#[test]
fn dispatch_chain_uses_accept_mark_not_terminal_accept() {
    let mut chains: OrdMap<String, NftChain> = OrdMap::new();
    let mut ep = WorkloadEndpoint {
        name: "cali123".into(),
        tiers: vec![TierInfo {
            name: "default".into(),
            ingress_policies: vec!["allow-web".into()],
            egress_policies: vec![],
        }],
        ..Default::default()
    };
    ep.profile_ids = vec!["kns.nettest".into()];
    let rules = dispatch_rules(&ep, Direction::Ingress, &mut chains);

    assert_eq!(rules[0].verdict, Verdict::ClearAcceptMark);
    let jump = NftRule::new(Verdict::Jump("cali-pi-default-allow-web".into()));
    let ret = NftRule::new(Verdict::Return).with(NftMatch::AcceptMarkSet);
    let jump_i = rules.iter().position(|r| *r == jump).expect("policy jump");
    let ret_i = rules
        .iter()
        .position(|r| *r == ret)
        .expect("return-if-accepted after the jump");
    assert!(jump_i < ret_i, "return-if-accepted follows the policy jump");
    assert!(rules.iter().all(|r| r.verdict != Verdict::Accept));
    assert_eq!(rules.last().unwrap().verdict, Verdict::Drop);
    assert!(!rules
        .iter()
        .any(|r| r.verdict == Verdict::Jump("cali-pri-kns.nettest".into())));
}

#[test]
fn dispatch_chain_profile_fallback_uses_accept_mark() {
    let mut chains: OrdMap<String, NftChain> = OrdMap::new();
    let ep = WorkloadEndpoint {
        name: "cali123".into(),
        profile_ids: vec!["kns.nettest".into()],
        ..Default::default()
    };
    let rules = dispatch_rules(&ep, Direction::Ingress, &mut chains);
    assert_eq!(rules[0].verdict, Verdict::ClearAcceptMark);
    let jump = NftRule::new(Verdict::Jump("cali-pri-kns.nettest".into()));
    let ret = NftRule::new(Verdict::Return).with(NftMatch::AcceptMarkSet);
    let jump_i = rules.iter().position(|r| *r == jump).expect("profile jump");
    let ret_i = rules
        .iter()
        .position(|r| *r == ret)
        .expect("return-if-accepted");
    assert!(jump_i < ret_i);
    assert_eq!(rules.last().unwrap().verdict, Verdict::Drop);
    assert!(rules.iter().all(|r| r.verdict != Verdict::Accept));
}

#[test]
fn cross_product_expands_nets_sets_and_ports() {
    // Two sources by two ports.
    let rule = PolicyRule {
        action_field: Some(RuleAction::Deny),
        src_nets: vec!["10.0.0.0/24".into()],
        src_ip_set_ids: vec!["s:x".into()],
        dst_ports: vec![80, 443],
        ..Default::default()
    };
    let rendered = render_rule(&rule);
    assert_eq!(rendered.len(), 4);
    assert!(rendered.iter().all(|r| r.verdict == Verdict::Drop));
}

#[test]
fn every_jump_has_its_chain() {
    let mut policies: OrdMap<PolicyId, Policy> = OrdMap::new();
    policies.insert(
        PolicyId {
            tier: "default".into(),
            name: "allow".into(),
        },
        Policy {
            inbound_rules: vec![PolicyRule::action(RuleAction::Allow)],
            outbound_rules: vec![],
        },
    );
    let mut endpoints: OrdMap<WorkloadEndpointId, WorkloadEndpoint> = OrdMap::new();
    endpoints.insert(
        WorkloadEndpointId {
            orchestrator: "k8s".into(),
            workload: "ns/pod".into(),
            endpoint: "cali1".into(),
        },
        WorkloadEndpoint {
            name: "cali1".into(),
            tiers: vec![TierInfo {
                name: "default".into(),
                ingress_policies: vec!["allow".into(), "missing".into()],
                egress_policies: vec![],
            }],
            profile_ids: vec!["unknown".into()],
            ..Default::default()
        },
    );
    let chains = build_desired_chains(&policies, &OrdMap::new(), &endpoints);
    let names: Vec<&String> = chains.entries.iter().map(|(k, _)| k).collect();
    for (_, chain) in &chains.entries {
        for rule in &chain.rules {
            assert_ne!(rule.verdict, Verdict::Accept);
            if let Verdict::Jump(target) = &rule.verdict {
                assert!(names.contains(&target), "{target}");
            }
        }
    }
    assert!(chains.lookup(FORWARD_CHAIN).is_some());
    assert!(chains.lookup("cali-pi-default-missing").unwrap().rules.is_empty());
    assert!(chains.lookup("cali-pro-unknown").is_some());
}

#[test]
fn names_of_chains() {
    let id = PolicyId {
        tier: "t".into(),
        name: "a/b c".into(),
    };
    assert_eq!(
        policy_chain_name(&id, Direction::Ingress),
        format!("cali-pi-{}", sanitize("t-a/b c"))
    );
    assert!(policy_chain_name(&id, Direction::Egress).starts_with("cali-po-"));
    assert_eq!(
        profile_chain_name("kns.default", Direction::Ingress),
        "cali-pri-kns.default"
    );
    assert_eq!(
        profile_chain_name("kns.default", Direction::Egress),
        "cali-pro-kns.default"
    );
    assert_eq!(
        dispatch_chain_name("cali1", Direction::Ingress),
        "cali-tw-cali1"
    );
    assert_eq!(
        dispatch_chain_name("cali1", Direction::Egress),
        "cali-fw-cali1"
    );
}

#[test]
fn alternatives_of_addresses_and_ports() {
    assert_eq!(addr_alternatives(&vec![], &vec![], true), vec![None]);
    assert_eq!(
        addr_alternatives(&vec!["10.0.0.0/8".into()], &vec![], false),
        vec![Some(NftMatch::DestAddr("10.0.0.0/8".into()))]
    );
    assert_eq!(port_alternatives(&vec![], true), vec![None]);
    assert_eq!(
        port_alternatives(&vec![80, 443], true),
        vec![Some(NftMatch::SrcPort(80)), Some(NftMatch::SrcPort(443))]
    );
    let rules = render_rules(&vec![
        PolicyRule::action(RuleAction::Pass),
        PolicyRule::action(RuleAction::Log),
        PolicyRule::action(RuleAction::Deny),
    ]);
    let verdicts: Vec<Verdict> = rules.into_iter().map(|r| r.verdict).collect();
    assert_eq!(verdicts, vec![Verdict::Return, Verdict::Drop]);
}

#[test]
fn targets_are_policies_or_else_profiles() {
    let ep = WorkloadEndpoint {
        name: "cali1".into(),
        tiers: vec![TierInfo {
            name: "default".into(),
            ingress_policies: vec!["a".into(), "b".into()],
            egress_policies: vec![],
        }],
        profile_ids: vec!["p".into()],
        ..Default::default()
    };
    assert_eq!(
        dispatch_targets(&ep, Direction::Ingress),
        vec!["cali-pi-default-a", "cali-pi-default-b"]
    );
    assert_eq!(
        dispatch_targets(&ep, Direction::Egress),
        vec!["cali-pro-p"]
    );
}
