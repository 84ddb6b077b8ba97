use calico::dataplane::Manager;
use calico::endpoint_manager::{build_desired_chains, FORWARD_CHAIN};
use calico::ipset_manager::set_name_for;
use calico::messages::{
    Policy, PolicyId, PolicyRule, RuleAction, TierInfo, ToDataplane, WorkloadEndpoint,
    WorkloadEndpointId,
};
use calico::nat_outgoing::build_nat_table;
use calico::nft::{NftChain, NftMatch, NftRule, Verdict};
use calico::ordmap::OrdMap;
use calico::policy_table::PolicyTableManager;

#[derive(Debug, PartialEq, Eq)]
enum End {
    Dropped,
    Accepted,
    Masqueraded,
    Passed,
}

/// The way of a packet, given by the conditions that hold for it, through rules.
fn walk(
    chains: &OrdMap<String, NftChain>,
    rules: &[NftRule],
    packet: &[NftMatch],
    mark: &mut bool,
) -> End {
    for rule in rules {
        let holds = |m: &NftMatch| match m {
            NftMatch::AcceptMarkSet => *mark,
            other => packet.contains(other),
        };
        if !rule.matches.iter().all(holds) {
            continue;
        }
        match &rule.verdict {
            Verdict::Accept => return End::Accepted,
            Verdict::Drop => return End::Dropped,
            Verdict::Return => return End::Passed,
            Verdict::Masquerade => return End::Masqueraded,
            Verdict::SetAcceptMarkReturn => {
                *mark = true;
                return End::Passed;
            }
            Verdict::ClearAcceptMark => *mark = false,
            Verdict::Jump(t) => {
                let target = chains.lookup(t).expect("the chain is there");
                let end = walk(chains, &target.rules, packet, mark);
                if end != End::Passed {
                    return end;
                }
            }
            Verdict::Goto(t) => {
                let target = chains.lookup(t).expect("the chain is there");
                return walk(chains, &target.rules, packet, mark);
            }
        }
    }
    End::Passed
}

fn wep(iface: &str, ep: WorkloadEndpoint) -> ToDataplane {
    ToDataplane::WorkloadEndpointUpdate {
        id: WorkloadEndpointId {
            orchestrator: "k8s".into(),
            workload: format!("ns/{iface}"),
            endpoint: iface.into(),
        },
        endpoint: ep,
    }
}

/// Two pods: the source is open by its profile, the destination admits a set only.
fn two_pods() -> PolicyTableManager {
    let mut mgr = PolicyTableManager::new();
    mgr.on_update(&ToDataplane::ActiveProfileUpdate {
        id: "open".into(),
        profile: Policy {
            inbound_rules: vec![PolicyRule::action(RuleAction::Allow)],
            outbound_rules: vec![PolicyRule::action(RuleAction::Allow)],
        },
    });
    mgr.on_update(&ToDataplane::ActivePolicyUpdate {
        id: PolicyId {
            tier: "default".into(),
            name: "allow-listed".into(),
        },
        policy: Policy {
            inbound_rules: vec![PolicyRule {
                action_field: Some(RuleAction::Allow),
                src_ip_set_ids: vec!["s:allowed".into()],
                ..Default::default()
            }],
            outbound_rules: vec![],
        },
    });
    mgr.on_update(&wep(
        "cali-src",
        WorkloadEndpoint {
            name: "cali-src".into(),
            profile_ids: vec!["open".into()],
            ..Default::default()
        },
    ));
    mgr.on_update(&wep(
        "cali-dst",
        WorkloadEndpoint {
            name: "cali-dst".into(),
            profile_ids: vec!["open".into()],
            tiers: vec![TierInfo {
                name: "default".into(),
                ingress_policies: vec!["allow-listed".into()],
                egress_policies: vec![],
            }],
            ..Default::default()
        },
    ));
    mgr
}

fn forward(mgr: &PolicyTableManager, packet: &[NftMatch], mark: bool) -> End {
    let chains = build_desired_chains(&mgr.policies, &mgr.profiles, &mgr.endpoints);
    let base = chains.lookup(FORWARD_CHAIN).expect("base chain");
    let mut mark = mark;
    walk(&chains, &base.rules, packet, &mut mark)
}

#[test]
fn both_directions_decide() {
    let mgr = two_pods();
    let listed = NftMatch::SrcSet(set_name_for("s:allowed"));
    let to_dst = vec![
        NftMatch::InInterface("cali-src".into()),
        NftMatch::OutInterface("cali-dst".into()),
    ];
    let mut to_dst_listed = to_dst.clone();
    to_dst_listed.push(listed);
    for mark in [false, true] {
        // The source may send, but the destination does not admit it.
        assert_eq!(forward(&mgr, &to_dst, mark), End::Dropped);
        // Once it is in the set, it gets through.
        assert_eq!(forward(&mgr, &to_dst_listed, mark), End::Passed);
        // The way back is open in both directions.
        let back = vec![
            NftMatch::InInterface("cali-dst".into()),
            NftMatch::OutInterface("cali-src".into()),
        ];
        assert_eq!(forward(&mgr, &back, mark), End::Passed);
        // What concerns neither passes.
        assert_eq!(
            forward(&mgr, &[NftMatch::InInterface("eth0".into())], mark),
            End::Passed
        );
    }
}

#[test]
fn only_leaving_traffic_is_masqueraded() {
    let (a, b) = ("10.0.0.0/16".to_string(), "10.1.0.0/16".to_string());
    let table = build_nat_table(&[a.clone()], &[a.clone(), b.clone()]);
    let end = |packet: &[NftMatch]| {
        let mut mark = false;
        walk(
            &OrdMap::new(),
            &table.chains[0].rules,
            packet,
            &mut mark,
        )
    };
    let src = NftMatch::SrcAddr(a);
    assert_eq!(end(&[src.clone()]), End::Masqueraded);
    assert_eq!(
        end(&[src.clone(), NftMatch::DestAddr(b.clone())]),
        End::Passed
    );
    assert_eq!(end(&[NftMatch::SrcAddr(b)]), End::Passed);
    assert_eq!(end(&[]), End::Passed);
}
