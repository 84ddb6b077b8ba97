//! What the policies and profiles of an endpoint decide about forwarded packets.
//!
//! The chains are named after what they are made from, and an endpoint's chain goes by those
//! names. Here is what that comes to: which rules govern an endpoint in a direction, in terms
//! of what the endpoint, the policies and the profiles say, and that the base chain lets a
//! packet through exactly where those rules allow it.

use crate::endpoint_manager::{
    chain_rules, desired_chains, dispatch_chain, endpoint_rules, forward_chain, policy_chain,
    policy_targets, profile_chain, profile_targets, targets, tier_targets, with_dispatch,
    with_endpoints, with_policies, with_profiles, Direction, FORWARD_CHAIN,
};
use crate::messages::{
    PolicyIdView, PolicyRuleView, PolicyView, TierInfoView, WorkloadEndpointIdView,
    WorkloadEndpointView,
};
use crate::nft::{NftChainView, NftMatchView};
use crate::seqs::{concat_all, concat_first};
use crate::traversal::{
    admits, both_admit, decides_only, first_opinion, law_both_directions_decide,
    law_endpoint_chain_decides, law_first_opinion_prevails, law_policy_chain_decides,
    lemma_chain_names, lemma_sorted_all, lemma_targets_are_policies, names_policy, opinion, walk,
    End, Walk,
};
use vstd::prelude::*;

verus! {

/// The rules of a policy or a profile for one direction: what comes in, or what goes out.
pub open spec fn rules_for(policy: PolicyView, dir: Direction) -> Seq<PolicyRuleView> {
    match dir {
        Direction::Ingress => policy.inbound_rules,
        Direction::Egress => policy.outbound_rules,
    }
}

/// The rules of the policy that a tier and a name stand for; none, where it is not known.
pub open spec fn policy_rules(
    policies: Seq<(PolicyIdView, PolicyView)>,
    tier: Seq<char>,
    name: Seq<char>,
    dir: Direction,
) -> Seq<PolicyRuleView> {
    if exists|i: int|
        0 <= i < policies.len() && (#[trigger] policies[i]).0.tier == tier && policies[i].0.name
            == name {
        let i = choose|i: int|
            0 <= i < policies.len() && (#[trigger] policies[i]).0.tier == tier && policies[i].0.name
                == name;
        rules_for(policies[i].1, dir)
    } else {
        Seq::empty()
    }
}

/// The rules of the profile of that name; none, where it is not known.
pub open spec fn profile_rules(
    profiles: Seq<(Seq<char>, PolicyView)>,
    id: Seq<char>,
    dir: Direction,
) -> Seq<PolicyRuleView> {
    if exists|i: int| 0 <= i < profiles.len() && (#[trigger] profiles[i]).0 == id {
        let i = choose|i: int| 0 <= i < profiles.len() && (#[trigger] profiles[i]).0 == id;
        rules_for(profiles[i].1, dir)
    } else {
        Seq::empty()
    }
}

/// The policies that a tier names for a direction.
pub open spec fn named_by(tier: TierInfoView, dir: Direction) -> Seq<Seq<char>> {
    match dir {
        Direction::Ingress => tier.ingress_policies,
        Direction::Egress => tier.egress_policies,
    }
}

/// The rules of an endpoint's policies for a direction, tier by tier and policy by policy.
pub open spec fn policy_lists(
    policies: Seq<(PolicyIdView, PolicyView)>,
    ep: WorkloadEndpointView,
    dir: Direction,
) -> Seq<Seq<PolicyRuleView>> {
    concat_all(
        Seq::new(
            ep.tiers.len(),
            |t: int|
                Seq::new(
                    named_by(ep.tiers[t], dir).len(),
                    |p: int|
                        policy_rules(
                            policies,
                            ep.tiers[t].name,
                            named_by(ep.tiers[t], dir)[p],
                            dir,
                        ),
                ),
        ),
    )
}

/// The rules of an endpoint's profiles for a direction, profile by profile.
pub open spec fn profile_lists(
    profiles: Seq<(Seq<char>, PolicyView)>,
    ep: WorkloadEndpointView,
    dir: Direction,
) -> Seq<Seq<PolicyRuleView>> {
    Seq::new(ep.profile_ids.len(), |i: int| profile_rules(profiles, ep.profile_ids[i], dir))
}

/// The rules that govern an endpoint in a direction: those of its policies, and those of its
/// profiles where no policy applies in that direction.
pub open spec fn governing(
    policies: Seq<(PolicyIdView, PolicyView)>,
    profiles: Seq<(Seq<char>, PolicyView)>,
    ep: WorkloadEndpointView,
    dir: Direction,
) -> Seq<Seq<PolicyRuleView>> {
    if policy_lists(policies, ep, dir).len() > 0 {
        policy_lists(policies, ep, dir)
    } else {
        profile_lists(profiles, ep, dir)
    }
}

/// Whether no other policy has the chain of the policy that a tier and a name stand for, in
/// that direction.
pub open spec fn policy_is_clear(
    policies: Seq<(PolicyIdView, PolicyView)>,
    tier: Seq<char>,
    name: Seq<char>,
    dir: Direction,
) -> bool {
    forall|i: int|
        0 <= i < policies.len() && policy_chain(
            (#[trigger] policies[i]).0.tier,
            policies[i].0.name,
            dir,
        ) == policy_chain(tier, name, dir) ==> policies[i].0.tier == tier && policies[i].0.name
            == name
}

/// Whether no other profile has the chain of the profile of that name, in that direction.
pub open spec fn profile_is_clear(
    profiles: Seq<(Seq<char>, PolicyView)>,
    id: Seq<char>,
    dir: Direction,
) -> bool {
    forall|i: int|
        0 <= i < profiles.len() && profile_chain((#[trigger] profiles[i]).0, dir) == profile_chain(
            id,
            dir,
        ) ==> profiles[i].0 == id
}

/// Whether every policy and profile is there once.
pub open spec fn told_once(
    policies: Seq<(PolicyIdView, PolicyView)>,
    profiles: Seq<(Seq<char>, PolicyView)>,
) -> bool {
    &&& forall|i: int, j: int|
        0 <= i < j < policies.len() ==> (#[trigger] policies[i]).0 != (#[trigger] policies[j]).0
    &&& forall|i: int, j: int|
        0 <= i < j < profiles.len() ==> (#[trigger] profiles[i]).0 != (#[trigger] profiles[j]).0
}

/// Whether the chains that an endpoint's chain jumps to in a direction are each that of one
/// policy or profile alone.
pub open spec fn targets_are_clear(
    policies: Seq<(PolicyIdView, PolicyView)>,
    profiles: Seq<(Seq<char>, PolicyView)>,
    ep: WorkloadEndpointView,
    dir: Direction,
) -> bool {
    &&& forall|t: int, p: int|
        0 <= t < ep.tiers.len() && 0 <= p < named_by(ep.tiers[t], dir).len() ==> policy_is_clear(
            policies,
            ep.tiers[t].name,
            #[trigger] named_by(ep.tiers[t], dir)[p],
            dir,
        )
    &&& forall|i: int|
        0 <= i < ep.profile_ids.len() ==> profile_is_clear(
            profiles,
            #[trigger] ep.profile_ids[i],
            dir,
        )
}

/// Whether no two endpoints share a chain, and the endpoints' targets are clear.
pub open spec fn told_apart(
    policies: Seq<(PolicyIdView, PolicyView)>,
    profiles: Seq<(Seq<char>, PolicyView)>,
    endpoints: Seq<(WorkloadEndpointIdView, WorkloadEndpointView)>,
) -> bool {
    &&& told_once(policies, profiles)
    &&& forall|i: int, dir: Direction|
        0 <= i < endpoints.len() ==> #[trigger] targets_are_clear(
            policies,
            profiles,
            endpoints[i].1,
            dir,
        )
    &&& forall|i: int, j: int, dir: Direction|
        0 <= i < endpoints.len() && 0 <= j < endpoints.len() && i != j ==> #[trigger] dispatch_chain(
            endpoints[i].1.name,
            dir,
        ) != #[trigger] dispatch_chain(endpoints[j].1.name, dir)
}

/// The names of chains of different kinds and directions differ.
proof fn lemma_kinds_differ(a: Seq<char>, b: Seq<char>, c: Seq<char>, d: Seq<char>)
    ensures
        policy_chain(a, b, Direction::Ingress) != policy_chain(c, d, Direction::Egress),
        profile_chain(a, Direction::Ingress) != profile_chain(c, Direction::Egress),
        dispatch_chain(a, Direction::Ingress) != dispatch_chain(c, Direction::Egress),
        forall|x: Direction, y: Direction| #[trigger]
            policy_chain(a, b, x) != #[trigger] profile_chain(c, y),
{
    reveal_strlit("cali-pi");
    reveal_strlit("cali-po");
    reveal_strlit("cali-pri");
    reveal_strlit("cali-pro");
    reveal_strlit("cali-tw");
    reveal_strlit("cali-fw");
    assert(policy_chain(a, b, Direction::Ingress)[6] == 'i');
    assert(policy_chain(c, d, Direction::Egress)[6] == 'o');
    assert(profile_chain(a, Direction::Ingress)[7] == 'i');
    assert(profile_chain(c, Direction::Egress)[7] == 'o');
    assert(dispatch_chain(a, Direction::Ingress)[5] == 't');
    assert(dispatch_chain(c, Direction::Egress)[5] == 'f');
    assert forall|x: Direction, y: Direction| #[trigger]
        policy_chain(a, b, x) != #[trigger] profile_chain(c, y) by {
        assert(policy_chain(a, b, x)[6] == 'i' || policy_chain(a, b, x)[6] == 'o');
        assert(profile_chain(c, y)[6] == 'r');
    }
}

/// The chain of a policy among the first `n` holds that policy's rules of its direction; a
/// policy that is not among them has no chain.
proof fn lemma_policy_chain(
    policies: Seq<(PolicyIdView, PolicyView)>,
    tier: Seq<char>,
    name: Seq<char>,
    dir: Direction,
    n: nat,
)
    requires
        n <= policies.len(),
        policy_is_clear(policies, tier, name, dir),
        forall|i: int, j: int|
            0 <= i < j < policies.len() ==> (#[trigger] policies[i]).0 != (#[trigger] policies[j]).0,
    ensures
        ({
            let x = with_policies(Map::empty(), policies, n);
            let k = policy_chain(tier, name, dir);
            &&& forall|i: int|
                0 <= i < n && (#[trigger] policies[i]).0.tier == tier && policies[i].0.name == name
                    ==> x.dom().contains(k) && x[k].rules == chain_rules(
                    rules_for(policies[i].1, dir),
                )
            &&& (forall|i: int|
                0 <= i < n ==> !((#[trigger] policies[i]).0.tier == tier && policies[i].0.name
                    == name)) ==> !x.dom().contains(k)
        }),
    decreases n,
{
    if n > 0 {
        let m = (n - 1) as nat;
        lemma_policy_chain(policies, tier, name, dir, m);
        let id = policies[m as int].0;
        lemma_kinds_differ(tier, name, id.tier, id.name);
        lemma_kinds_differ(id.tier, id.name, tier, name);
        let x = with_policies(Map::empty(), policies, n);
        let k = policy_chain(tier, name, dir);
        assert forall|i: int|
            0 <= i < n && (#[trigger] policies[i]).0.tier == tier && policies[i].0.name
                == name implies x.dom().contains(k) && x[k].rules == chain_rules(
            rules_for(policies[i].1, dir),
        ) by {
            if i < m {
                if id.tier == tier && id.name == name {
                    assert(policies[i].0 =~= policies[m as int].0);
                }
            }
        }
    }
}

/// The chain of a profile among the first `n` holds that profile's rules of its direction; a
/// profile that is not among them has the chain that it had before, if any.
proof fn lemma_profile_chain(
    before: Map<Seq<char>, NftChainView>,
    profiles: Seq<(Seq<char>, PolicyView)>,
    id: Seq<char>,
    dir: Direction,
    n: nat,
)
    requires
        n <= profiles.len(),
        profile_is_clear(profiles, id, dir),
        !before.dom().contains(profile_chain(id, dir)),
        forall|i: int, j: int|
            0 <= i < j < profiles.len() ==> (#[trigger] profiles[i]).0 != (#[trigger] profiles[j]).0,
    ensures
        ({
            let y = with_profiles(before, profiles, n);
            let k = profile_chain(id, dir);
            &&& forall|i: int|
                0 <= i < n && (#[trigger] profiles[i]).0 == id ==> y.dom().contains(k) && y[k].rules
                    == chain_rules(rules_for(profiles[i].1, dir))
            &&& (forall|i: int| 0 <= i < n ==> (#[trigger] profiles[i]).0 != id)
                ==> !y.dom().contains(k)
        }),
    decreases n,
{
    if n > 0 {
        let m = (n - 1) as nat;
        lemma_profile_chain(before, profiles, id, dir, m);
        let other = profiles[m as int].0;
        lemma_kinds_differ(id, id, other, other);
        lemma_kinds_differ(other, other, id, id);
    }
}

/// Profiles leave the chains of policies alone.
proof fn lemma_profiles_leave_policies(
    before: Map<Seq<char>, NftChainView>,
    profiles: Seq<(Seq<char>, PolicyView)>,
    tier: Seq<char>,
    name: Seq<char>,
    dir: Direction,
    n: nat,
)
    requires
        n <= profiles.len(),
    ensures
        ({
            let y = with_profiles(before, profiles, n);
            let k = policy_chain(tier, name, dir);
            &&& y.dom().contains(k) == before.dom().contains(k)
            &&& y[k] == before[k]
        }),
    decreases n,
{
    if n > 0 {
        let m = (n - 1) as nat;
        lemma_profiles_leave_policies(before, profiles, tier, name, dir, m);
        lemma_kinds_differ(tier, name, profiles[m as int].0, name);
        let k = policy_chain(tier, name, dir);
        assert(k != profile_chain(profiles[m as int].0, Direction::Ingress));
        assert(k != profile_chain(profiles[m as int].0, Direction::Egress));
    }
}

/// Policies leave the chains of profiles alone.
proof fn lemma_policies_leave_profiles(
    policies: Seq<(PolicyIdView, PolicyView)>,
    id: Seq<char>,
    dir: Direction,
    n: nat,
)
    requires
        n <= policies.len(),
    ensures
        !with_policies(Map::empty(), policies, n).dom().contains(profile_chain(id, dir)),
    decreases n,
{
    if n > 0 {
        let m = (n - 1) as nat;
        lemma_policies_leave_profiles(policies, id, dir, m);
        let other = policies[m as int].0;
        lemma_kinds_differ(other.tier, other.name, id, id);
        let k = profile_chain(id, dir);
        assert(policy_chain(other.tier, other.name, Direction::Ingress) != k);
        assert(policy_chain(other.tier, other.name, Direction::Egress) != k);
    }
}

/// Endpoints leave the chains of policies and profiles alone; a chain that one of them jumps
/// to and that is not there is put in its place without rules.
proof fn lemma_endpoints_leave_policies(
    before: Map<Seq<char>, NftChainView>,
    endpoints: Seq<(WorkloadEndpointIdView, WorkloadEndpointView)>,
    k: Seq<char>,
    n: nat,
)
    requires
        n <= endpoints.len(),
        names_policy(k),
    ensures
        ({
            let z = with_endpoints(before, endpoints, n);
            &&& before.dom().contains(k) ==> z.dom().contains(k) && z[k] == before[k]
            &&& !before.dom().contains(k) && z.dom().contains(k) ==> z[k].rules.len() == 0
        }),
    decreases n,
{
    if n > 0 {
        let m = (n - 1) as nat;
        lemma_endpoints_leave_policies(before, endpoints, k, m);
        let ep = endpoints[m as int].1;
        lemma_chain_names(ep.name, ep.name, Direction::Ingress);
        lemma_chain_names(ep.name, ep.name, Direction::Egress);
    }
}

/// Each of the first `n` endpoints has its chain in either direction.
proof fn lemma_endpoint_chains(
    before: Map<Seq<char>, NftChainView>,
    endpoints: Seq<(WorkloadEndpointIdView, WorkloadEndpointView)>,
    i: int,
    dir: Direction,
    n: nat,
)
    requires
        0 <= i < n <= endpoints.len(),
        forall|a: int, b: int, d: Direction|
            0 <= a < endpoints.len() && 0 <= b < endpoints.len() && a != b
                ==> #[trigger] dispatch_chain(endpoints[a].1.name, d) != #[trigger] dispatch_chain(
                endpoints[b].1.name,
                d,
            ),
    ensures
        ({
            let z = with_endpoints(before, endpoints, n);
            let ep = endpoints[i].1;
            let k = dispatch_chain(ep.name, dir);
            &&& z.dom().contains(k)
            &&& z[k].rules == endpoint_rules(ep, dir)
            &&& forall|j: int|
                0 <= j < targets(ep, dir).len() ==> z.dom().contains(#[trigger] targets(ep, dir)[j])
        }),
    decreases n,
{
    let m = (n - 1) as nat;
    let w = with_endpoints(before, endpoints, m);
    let last = endpoints[m as int].1;
    let ep = endpoints[i].1;
    let one = with_dispatch(w, last, Direction::Ingress);
    let two = with_dispatch(one, last, Direction::Egress);
    let k = dispatch_chain(ep.name, dir);
    let names = targets(ep, dir);
    lemma_kinds_differ(ep.name, ep.name, last.name, last.name);
    lemma_kinds_differ(last.name, last.name, ep.name, ep.name);
    lemma_targets_are_policies(last, Direction::Ingress);
    lemma_targets_are_policies(last, Direction::Egress);
    assert(two == with_endpoints(before, endpoints, n));
    if i < m {
        lemma_endpoint_chains(before, endpoints, i, dir, m);
        assert(dispatch_chain(ep.name, dir) != dispatch_chain(last.name, dir));
    } else {
        assert forall|j: int| 0 <= j < names.len() implies two.dom().contains(
            #[trigger] names[j],
        ) by {
            assert(names.contains(names[j]));
        }
        match dir {
            Direction::Ingress => {
                assert(one[k].rules == endpoint_rules(ep, dir));
            },
            Direction::Egress => {},
        }
    }
}

/// The lookups, given what the chains hold.
proof fn lemma_policy_rules(
    policies: Seq<(PolicyIdView, PolicyView)>,
    profiles: Seq<(Seq<char>, PolicyView)>,
    endpoints: Seq<(WorkloadEndpointIdView, WorkloadEndpointView)>,
    tier: Seq<char>,
    name: Seq<char>,
    dir: Direction,
)
    requires
        told_once(policies, profiles),
        policy_is_clear(policies, tier, name, dir),
    ensures
        ({
            let chains = desired_chains(policies, profiles, endpoints);
            let k = policy_chain(tier, name, dir);
            chains.dom().contains(k) ==> chains[k].rules == chain_rules(
                policy_rules(policies, tier, name, dir),
            )
        }),
        forall|i: int|
            0 <= i < policies.len() && (#[trigger] policies[i]).0.tier == tier && policies[i].0.name
                == name ==> desired_chains(policies, profiles, endpoints).dom().contains(
                policy_chain(tier, name, dir),
            ) && policy_rules(policies, tier, name, dir) == rules_for(policies[i].1, dir),
{
    let x = with_policies(Map::empty(), policies, policies.len());
    let y = with_profiles(x, profiles, profiles.len());
    let z = with_endpoints(y, endpoints, endpoints.len());
    let k = policy_chain(tier, name, dir);
    lemma_policy_chain(policies, tier, name, dir, policies.len());
    lemma_profiles_leave_policies(x, profiles, tier, name, dir, profiles.len());
    lemma_chain_names(tier, name, dir);
    lemma_endpoints_leave_policies(y, endpoints, k, endpoints.len());
    assert(chain_rules(Seq::empty()) =~= Seq::empty());
    assert forall|i: int|
        0 <= i < policies.len() && (#[trigger] policies[i]).0.tier == tier && policies[i].0.name
            == name implies policy_rules(policies, tier, name, dir) == rules_for(
        policies[i].1,
        dir,
    ) by {
        let j = choose|j: int|
            0 <= j < policies.len() && (#[trigger] policies[j]).0.tier == tier && policies[j].0.name
                == name;
        assert(policies[i].0 =~= policies[j].0);
        assert(i == j);
    }
}

/// The lookups of profiles, given what the chains hold.
proof fn lemma_profile_rules(
    policies: Seq<(PolicyIdView, PolicyView)>,
    profiles: Seq<(Seq<char>, PolicyView)>,
    endpoints: Seq<(WorkloadEndpointIdView, WorkloadEndpointView)>,
    id: Seq<char>,
    dir: Direction,
)
    requires
        told_once(policies, profiles),
        profile_is_clear(profiles, id, dir),
    ensures
        ({
            let chains = desired_chains(policies, profiles, endpoints);
            let k = profile_chain(id, dir);
            chains.dom().contains(k) ==> chains[k].rules == chain_rules(
                profile_rules(profiles, id, dir),
            )
        }),
        forall|i: int|
            0 <= i < profiles.len() && (#[trigger] profiles[i]).0 == id ==> desired_chains(
                policies,
                profiles,
                endpoints,
            ).dom().contains(profile_chain(id, dir)) && profile_rules(profiles, id, dir)
                == rules_for(profiles[i].1, dir),
{
    let x = with_policies(Map::empty(), policies, policies.len());
    let y = with_profiles(x, profiles, profiles.len());
    let z = with_endpoints(y, endpoints, endpoints.len());
    let k = profile_chain(id, dir);
    lemma_policies_leave_profiles(policies, id, dir, policies.len());
    lemma_profile_chain(x, profiles, id, dir, profiles.len());
    lemma_chain_names(id, id, dir);
    lemma_endpoints_leave_policies(y, endpoints, k, endpoints.len());
    assert(chain_rules(Seq::empty()) =~= Seq::empty());
    assert forall|i: int|
        0 <= i < profiles.len() && (#[trigger] profiles[i]).0 == id implies profile_rules(
        profiles,
        id,
        dir,
    ) == rules_for(profiles[i].1, dir) by {
        let j = choose|j: int| 0 <= j < profiles.len() && (#[trigger] profiles[j]).0 == id;
        assert(i == j);
    }
}

/// What the way through a chain comes to where rules have an opinion of a packet.
pub open spec fn decision(opinion: Option<bool>, mark: bool) -> Walk {
    match opinion {
        Some(true) => Walk { end: End::Passed, mark: true },
        Some(false) => Walk { end: End::Dropped, mark },
        None => Walk { end: End::Passed, mark },
    }
}

/// The chain of a policy for what comes in decides as the policy's inbound rules do, and its
/// chain for what goes out as its outbound rules do: the first rule that is about a packet
/// decides, whatever other policies, profiles and endpoints there are.
pub proof fn law_policy_decides_by_its_own_rules(
    policies: Seq<(PolicyIdView, PolicyView)>,
    profiles: Seq<(Seq<char>, PolicyView)>,
    endpoints: Seq<(WorkloadEndpointIdView, WorkloadEndpointView)>,
    i: int,
    dir: Direction,
    packet: spec_fn(NftMatchView) -> bool,
    mark: bool,
    depth: nat,
)
    requires
        0 <= i < policies.len(),
        told_once(policies, profiles),
        policy_is_clear(policies, policies[i].0.tier, policies[i].0.name, dir),
    ensures
        ({
            let chains = desired_chains(policies, profiles, endpoints);
            let k = policy_chain(policies[i].0.tier, policies[i].0.name, dir);
            let rules = match dir {
                Direction::Ingress => policies[i].1.inbound_rules,
                Direction::Egress => policies[i].1.outbound_rules,
            };
            &&& chains.dom().contains(k)
            &&& walk(chains, chains[k].rules, packet, mark, depth) == decision(
                opinion(packet, rules),
                mark,
            )
        }),
{
    let id = policies[i].0;
    let chains = desired_chains(policies, profiles, endpoints);
    lemma_policy_rules(policies, profiles, endpoints, id.tier, id.name, dir);
    law_policy_chain_decides(chains, packet, rules_for(policies[i].1, dir), mark, depth);
}

/// The chains of a profile decide as its rules do, direction by direction.
pub proof fn law_profile_decides_by_its_own_rules(
    policies: Seq<(PolicyIdView, PolicyView)>,
    profiles: Seq<(Seq<char>, PolicyView)>,
    endpoints: Seq<(WorkloadEndpointIdView, WorkloadEndpointView)>,
    i: int,
    dir: Direction,
    packet: spec_fn(NftMatchView) -> bool,
    mark: bool,
    depth: nat,
)
    requires
        0 <= i < profiles.len(),
        told_once(policies, profiles),
        profile_is_clear(profiles, profiles[i].0, dir),
    ensures
        ({
            let chains = desired_chains(policies, profiles, endpoints);
            let k = profile_chain(profiles[i].0, dir);
            let rules = match dir {
                Direction::Ingress => profiles[i].1.inbound_rules,
                Direction::Egress => profiles[i].1.outbound_rules,
            };
            &&& chains.dom().contains(k)
            &&& walk(chains, chains[k].rules, packet, mark, depth) == decision(
                opinion(packet, rules),
                mark,
            )
        }),
{
    let chains = desired_chains(policies, profiles, endpoints);
    lemma_profile_rules(policies, profiles, endpoints, profiles[i].0, dir);
    law_policy_chain_decides(chains, packet, rules_for(profiles[i].1, dir), mark, depth);
}

/// What belongs together block by block belongs together whole.
proof fn lemma_blocks_pair_up(
    chains: Map<Seq<char>, NftChainView>,
    names: Seq<Seq<Seq<char>>>,
    lists: Seq<Seq<Seq<PolicyRuleView>>>,
    n: nat,
)
    requires
        n <= names.len(),
        names.len() == lists.len(),
        forall|t: int| 0 <= t < n ==> (#[trigger] names[t]).len() == lists[t].len(),
        forall|t: int, p: int|
            0 <= t < n && 0 <= p < names[t].len() ==> (chains.dom().contains(#[trigger] names[t][p])
                ==> chains[names[t][p]].rules == chain_rules(lists[t][p])),
    ensures
        concat_first(names, n).len() == concat_first(lists, n).len(),
        forall|j: int|
            0 <= j < concat_first(names, n).len() ==> (chains.dom().contains(
                #[trigger] concat_first(names, n)[j],
            ) ==> chains[concat_first(names, n)[j]].rules == chain_rules(
                concat_first(lists, n)[j],
            )),
    decreases n,
{
    if n > 0 {
        let m = (n - 1) as nat;
        lemma_blocks_pair_up(chains, names, lists, m);
        let a = concat_first(names, m);
        let b = concat_first(lists, m);
        assert(names[m as int].len() == lists[m as int].len());
        assert forall|j: int|
            0 <= j < concat_first(names, n).len() && chains.dom().contains(
                #[trigger] concat_first(names, n)[j],
            ) implies chains[concat_first(names, n)[j]].rules == chain_rules(
            concat_first(lists, n)[j],
        ) by {
            if j < a.len() {
                assert(concat_first(names, n)[j] == a[j]);
                assert(concat_first(lists, n)[j] == b[j]);
            } else {
                assert(concat_first(names, n)[j] == names[m as int][j - a.len()]);
                assert(concat_first(lists, n)[j] == lists[m as int][j - a.len()]);
            }
        }
    }
}

/// The chains that an endpoint's chain jumps to are those of the rules that govern it.
proof fn lemma_targets_are_governing(
    policies: Seq<(PolicyIdView, PolicyView)>,
    profiles: Seq<(Seq<char>, PolicyView)>,
    endpoints: Seq<(WorkloadEndpointIdView, WorkloadEndpointView)>,
    ep: WorkloadEndpointView,
    dir: Direction,
)
    requires
        told_once(policies, profiles),
        targets_are_clear(policies, profiles, ep, dir),
    ensures
        ({
            let chains = desired_chains(policies, profiles, endpoints);
            let names = targets(ep, dir);
            let lists = governing(policies, profiles, ep, dir);
            &&& names.len() == lists.len()
            &&& forall|j: int|
                0 <= j < names.len() ==> (chains.dom().contains(#[trigger] names[j])
                    ==> chains[names[j]].rules == chain_rules(lists[j]))
        }),
{
    let chains = desired_chains(policies, profiles, endpoints);
    let rows = Seq::new(ep.tiers.len(), |t: int| tier_targets(ep.tiers[t], dir));
    let lists = Seq::new(
        ep.tiers.len(),
        |t: int|
            Seq::new(
                named_by(ep.tiers[t], dir).len(),
                |p: int|
                    policy_rules(policies, ep.tiers[t].name, named_by(ep.tiers[t], dir)[p], dir),
            ),
    );
    assert forall|t: int, p: int|
        0 <= t < rows.len() && 0 <= p < rows[t].len() && chains.dom().contains(
            #[trigger] rows[t][p],
        ) implies chains[rows[t][p]].rules == chain_rules(lists[t][p]) by {
        let name = named_by(ep.tiers[t], dir)[p];
        assert(policy_is_clear(policies, ep.tiers[t].name, name, dir));
        lemma_policy_rules(policies, profiles, endpoints, ep.tiers[t].name, name, dir);
        assert(rows[t][p] == policy_chain(ep.tiers[t].name, name, dir));
        assert(lists[t][p] == policy_rules(policies, ep.tiers[t].name, name, dir));
    }
    lemma_blocks_pair_up(chains, rows, lists, rows.len());
    assert(policy_targets(ep, dir) == concat_first(rows, rows.len()));
    assert(policy_lists(policies, ep, dir) == concat_first(lists, lists.len()));
    let ids = profile_targets(ep, dir);
    let by_profile = profile_lists(profiles, ep, dir);
    assert forall|j: int|
        0 <= j < ids.len() && chains.dom().contains(#[trigger] ids[j]) implies chains[ids[j]].rules
        == chain_rules(by_profile[j]) by {
        assert(profile_is_clear(profiles, ep.profile_ids[j], dir));
        lemma_profile_rules(policies, profiles, endpoints, ep.profile_ids[j], dir);
    }
}

/// The chain of an endpoint's interface admits a packet exactly where the first of the rules
/// that govern the endpoint in that direction and that have an opinion allow it.
pub proof fn law_endpoint_is_governed_by_its_policies(
    policies: Seq<(PolicyIdView, PolicyView)>,
    profiles: Seq<(Seq<char>, PolicyView)>,
    endpoints: Seq<(WorkloadEndpointIdView, WorkloadEndpointView)>,
    i: int,
    dir: Direction,
    packet: spec_fn(NftMatchView) -> bool,
    depth: nat,
)
    requires
        0 <= i < endpoints.len(),
        told_apart(policies, profiles, endpoints),
        depth >= 1,
    ensures
        ({
            let chains = desired_chains(policies, profiles, endpoints);
            let ep = endpoints[i].1;
            admits(chains, dispatch_chain(ep.name, dir), packet, depth) <==> first_opinion(
                packet,
                governing(policies, profiles, ep, dir),
            ) == Some(true)
        }),
{
    let chains = desired_chains(policies, profiles, endpoints);
    let x = with_policies(Map::empty(), policies, policies.len());
    let y = with_profiles(x, profiles, profiles.len());
    let z = with_endpoints(y, endpoints, endpoints.len());
    let ep = endpoints[i].1;
    let k = dispatch_chain(ep.name, dir);
    let names = targets(ep, dir);
    lemma_endpoint_chains(y, endpoints, i, dir, endpoints.len());
    lemma_sorted_all(
        policies,
        profiles,
        endpoints,
        policies.len(),
        profiles.len(),
        endpoints.len(),
    );
    assert(chains == z.insert(FORWARD_CHAIN@, forward_chain(endpoints)));
    lemma_chain_names(ep.name, ep.name, dir);
    lemma_targets_are_policies(ep, dir);
    assert(targets_are_clear(policies, profiles, endpoints[i].1, dir));
    lemma_targets_are_governing(policies, profiles, endpoints, ep, dir);
    assert forall|j: int| 0 <= j < names.len() implies chains.dom().contains(#[trigger] names[j])
        && decides_only(chains[names[j]]) by {
        assert(z.dom().contains(names[j]) && names_policy(names[j]));
    }
    law_endpoint_chain_decides(chains, ep, dir, packet, false, (depth - 1) as nat);
    law_first_opinion_prevails(
        chains,
        names,
        governing(policies, profiles, ep, dir),
        packet,
        (depth - 1) as nat,
    );
}

/// Whether the rules that govern the endpoints allow a packet: those for what comes in of the
/// endpoint that it goes to, and those for what goes out of the endpoint that it comes from.
pub open spec fn allowed(
    policies: Seq<(PolicyIdView, PolicyView)>,
    profiles: Seq<(Seq<char>, PolicyView)>,
    endpoints: Seq<(WorkloadEndpointIdView, WorkloadEndpointView)>,
    packet: spec_fn(NftMatchView) -> bool,
) -> bool {
    forall|i: int|
        0 <= i < endpoints.len() ==> {
            let ep = (#[trigger] endpoints[i]).1;
            &&& packet(NftMatchView::OutInterface(ep.name)) ==> first_opinion(
                packet,
                governing(policies, profiles, ep, Direction::Ingress),
            ) == Some(true)
            &&& packet(NftMatchView::InInterface(ep.name)) ==> first_opinion(
                packet,
                governing(policies, profiles, ep, Direction::Egress),
            ) == Some(true)
        }
}

/// A forwarded packet gets through exactly where it is allowed: for each endpoint that it
/// goes to by the inbound rules of that endpoint's ingress policies, and for each endpoint
/// that it comes from by the outbound rules of that endpoint's egress policies, with the
/// profiles in the place of policies where an endpoint has none in the direction. Everything
/// else is dropped.
pub proof fn law_forwarding_follows_the_policies(
    policies: Seq<(PolicyIdView, PolicyView)>,
    profiles: Seq<(Seq<char>, PolicyView)>,
    endpoints: Seq<(WorkloadEndpointIdView, WorkloadEndpointView)>,
    packet: spec_fn(NftMatchView) -> bool,
    mark: bool,
    depth: nat,
)
    requires
        endpoints.len() > 0,
        told_apart(policies, profiles, endpoints),
        depth >= 1,
    ensures
        ({
            let chains = desired_chains(policies, profiles, endpoints);
            walk(chains, chains["cali-forward"@].rules, packet, mark, depth + 1).end == if allowed(
                policies,
                profiles,
                endpoints,
                packet,
            ) {
                End::Passed
            } else {
                End::Dropped
            }
        }),
{
    let chains = desired_chains(policies, profiles, endpoints);
    law_both_directions_decide(policies, profiles, endpoints, packet, mark, depth);
    assert forall|i: int, dir: Direction| 0 <= i < endpoints.len() implies (#[trigger] admits(
        chains,
        dispatch_chain(endpoints[i].1.name, dir),
        packet,
        depth,
    ) <==> first_opinion(packet, governing(policies, profiles, endpoints[i].1, dir)) == Some(
        true,
    )) by {
        law_endpoint_is_governed_by_its_policies(
            policies,
            profiles,
            endpoints,
            i,
            dir,
            packet,
            depth,
        );
    }
    assert(both_admit(chains, endpoints, packet, depth) <==> allowed(
        policies,
        profiles,
        endpoints,
        packet,
    )) by {
        if both_admit(chains, endpoints, packet, depth) {
            assert forall|i: int| 0 <= i < endpoints.len() implies {
                let ep = (#[trigger] endpoints[i]).1;
                &&& packet(NftMatchView::OutInterface(ep.name)) ==> first_opinion(
                    packet,
                    governing(policies, profiles, ep, Direction::Ingress),
                ) == Some(true)
                &&& packet(NftMatchView::InInterface(ep.name)) ==> first_opinion(
                    packet,
                    governing(policies, profiles, ep, Direction::Egress),
                ) == Some(true)
            } by {
                let name = endpoints[i].1.name;
                assert(packet(NftMatchView::OutInterface(name)) ==> admits(
                    chains,
                    dispatch_chain(name, Direction::Ingress),
                    packet,
                    depth,
                ));
                assert(packet(NftMatchView::InInterface(name)) ==> admits(
                    chains,
                    dispatch_chain(name, Direction::Egress),
                    packet,
                    depth,
                ));
            }
        }
    }
}

/// The chain that forwarded packets come to first is the one base chain: it hooks the
/// forwarding of packets as a filter and lets through what nothing drops. It is there as
/// soon as there is an endpoint, and no other chain hooks anything.
pub proof fn law_one_chain_hooks_forwarding(
    policies: Seq<(PolicyIdView, PolicyView)>,
    profiles: Seq<(Seq<char>, PolicyView)>,
    endpoints: Seq<(WorkloadEndpointIdView, WorkloadEndpointView)>,
    k: Seq<char>,
)
    ensures
        ({
            let chains = desired_chains(policies, profiles, endpoints);
            let f = chains["cali-forward"@];
            &&& endpoints.len() > 0 ==> chains.dom().contains("cali-forward"@) && f.base is Some
                && f.base->0.hook == "forward"@ && f.base->0.policy_accept && f.base->0.chain_type
                == crate::nft::ChainType::Filter && f.base->0.priority == 0
            &&& chains.dom().contains(k) && !(k == "cali-forward"@ && endpoints.len() > 0)
                ==> chains[k].base is None
        }),
{
    lemma_regular_policies(policies, policies.len(), k);
    let x = with_policies(Map::empty(), policies, policies.len());
    lemma_regular_profiles(x, profiles, profiles.len(), k);
    let y = with_profiles(x, profiles, profiles.len());
    lemma_regular_endpoints(y, endpoints, endpoints.len(), k);
}

/// The chains of policies hook nothing.
proof fn lemma_regular_policies(policies: Seq<(PolicyIdView, PolicyView)>, n: nat, k: Seq<char>)
    requires
        n <= policies.len(),
    ensures
        ({
            let x = with_policies(Map::empty(), policies, n);
            x.dom().contains(k) ==> x[k].base is None
        }),
    decreases n,
{
    if n > 0 {
        lemma_regular_policies(policies, (n - 1) as nat, k);
    }
}

/// The chains of profiles hook nothing.
proof fn lemma_regular_profiles(
    before: Map<Seq<char>, NftChainView>,
    profiles: Seq<(Seq<char>, PolicyView)>,
    n: nat,
    k: Seq<char>,
)
    requires
        n <= profiles.len(),
        before.dom().contains(k) ==> before[k].base is None,
    ensures
        ({
            let y = with_profiles(before, profiles, n);
            y.dom().contains(k) ==> y[k].base is None
        }),
    decreases n,
{
    if n > 0 {
        lemma_regular_profiles(before, profiles, (n - 1) as nat, k);
    }
}

/// The chains of endpoints hook nothing.
proof fn lemma_regular_endpoints(
    before: Map<Seq<char>, NftChainView>,
    endpoints: Seq<(WorkloadEndpointIdView, WorkloadEndpointView)>,
    n: nat,
    k: Seq<char>,
)
    requires
        n <= endpoints.len(),
        before.dom().contains(k) ==> before[k].base is None,
    ensures
        ({
            let z = with_endpoints(before, endpoints, n);
            z.dom().contains(k) ==> z[k].base is None
        }),
    decreases n,
{
    if n > 0 {
        lemma_regular_endpoints(before, endpoints, (n - 1) as nat, k);
    }
}

} // verus!
